//! Search states: a board together with the cached coordinate of its blank,
//! and the transition that swaps the blank with one orthogonal neighbour.

use crate::map::board_wf;
use crate::map::Board;
use vstd::pervasive::VecAdditionalExecFns;
use vstd::prelude::*;

verus! {

/// A (row, column) coordinate: `x` is the row, `y` the column, so that the
/// flat index of a point is `x * size + y`.
#[derive(Debug, Clone, Copy, PartialEq, Eq, Structural)]
pub struct Point {
    pub x: u16,
    pub y: u16,
}

impl Point {
    /// Flat row-major index of this point on a board of side `size`.
    pub fn to_1d(&self, size: u16) -> (r: u16)
        requires
            self.x * size + self.y <= u16::MAX,
        ensures
            r == self.x * size + self.y,
    {
        self.x * size + self.y
    }

    /// The point whose flat index is `x` on a board of side `size`.
    pub fn from_1d(x: u16, size: u16) -> (r: Point)
        requires
            size >= 1,
        ensures
            r.x == x as int / size as int,
            r.y == x as int % size as int,
    {
        Point { x: x / size, y: x % size }
    }

    /// Same conversion as `from_1d`, under a second established name.
    pub fn to_2d(idx: u16, size: u16) -> (r: Point)
        requires
            size >= 1,
        ensures
            r.x == idx as int / size as int,
            r.y == idx as int % size as int,
    {
        Point::from_1d(idx, size)
    }

    /// The point one row up, or `None` at the first row.
    pub fn left(&self) -> (r: Option<Point>)
        ensures
            self.x == 0 ==> r is None,
            self.x > 0 ==> r == Some(Point { x: (self.x - 1) as u16, y: self.y }),
    {
        if self.x == 0 {
            None
        } else {
            Some(Point { x: self.x - 1, y: self.y })
        }
    }

    /// The point one row down, or `None` at the last row.
    pub fn right(&self, size: u16) -> (r: Option<Point>)
        requires
            size >= 1,
        ensures
            self.x + 1 >= size ==> r is None,
            self.x + 1 < size ==> r == Some(Point { x: (self.x + 1) as u16, y: self.y }),
    {
        if self.x >= size - 1 {
            None
        } else {
            Some(Point { x: self.x + 1, y: self.y })
        }
    }

    /// The point one column to the left, or `None` at the first column.
    pub fn up(&self) -> (r: Option<Point>)
        ensures
            self.y == 0 ==> r is None,
            self.y > 0 ==> r == Some(Point { x: self.x, y: (self.y - 1) as u16 }),
    {
        if self.y == 0 {
            None
        } else {
            Some(Point { x: self.x, y: self.y - 1 })
        }
    }

    /// The point one column to the right, or `None` at the last column.
    pub fn down(&self, size: u16) -> (r: Option<Point>)
        requires
            size >= 1,
        ensures
            self.y + 1 >= size ==> r is None,
            self.y + 1 < size ==> r == Some(Point { x: self.x, y: (self.y + 1) as u16 }),
    {
        if self.y >= size - 1 {
            None
        } else {
            Some(Point { x: self.x, y: self.y + 1 })
        }
    }
}

/// Index of the first blank in `b`, or `b.len()` if there is none.
pub open spec fn first_zero(b: Seq<u16>) -> int
    decreases b.len(),
{
    if b.len() == 0 {
        0
    } else if b[0] == 0 {
        0
    } else {
        1 + first_zero(b.drop_first())
    }
}

pub proof fn lemma_first_zero_le_len(b: Seq<u16>)
    ensures
        0 <= first_zero(b) <= b.len(),
    decreases b.len(),
{
    if b.len() > 0 && b[0] != 0 {
        lemma_first_zero_le_len(b.drop_first());
    }
}

/// `first_zero` is pinned by the pattern of blanks: if everything before `k`
/// is non-blank and `k` is a blank (or the end), then `first_zero` is `k`.
pub proof fn lemma_first_zero_at(b: Seq<u16>, k: int)
    requires
        0 <= k <= b.len(),
        forall|j: int| 0 <= j < k ==> b[j] != 0,
        k < b.len() ==> b[k] == 0,
    ensures
        first_zero(b) == k,
    decreases k,
{
    if k == 0 {
        if b.len() > 0 {
            assert(b[0] == 0);
        }
    } else {
        assert(b[0] != 0);
        let t = b.drop_first();
        assert forall|j: int| 0 <= j < k - 1 implies t[j] != 0 by {
            assert(t[j] == b[j + 1]);
        }
        assert(k - 1 < t.len() ==> t[k - 1] == b[k] == 0);
        lemma_first_zero_at(t, k - 1);
    }
}

/// `b` with the entries at `i` and `j` exchanged.
pub open spec fn swapped(b: Seq<u16>, i: int, j: int) -> Seq<u16> {
    b.update(i, b[j]).update(j, b[i])
}

/// `b` arises from `a` by sliding the blank at (zx, zy) to the orthogonally
/// adjacent cell (nx, ny).
pub open spec fn slide_at(
    a: Seq<u16>,
    b: Seq<u16>,
    zx: int,
    zy: int,
    nx: int,
    ny: int,
    size: u16,
) -> bool {
    &&& 0 <= zx < size && 0 <= zy < size && 0 <= nx < size && 0 <= ny < size
    &&& (zx == nx && (zy == ny + 1 || ny == zy + 1)) || (zy == ny && (zx == nx + 1 || nx == zx
        + 1))
    &&& a[zx * size + zy] == 0
    &&& b == swapped(a, zx * size + zy, nx * size + ny)
}

/// One legal transition: exactly the blank and one orthogonal neighbour
/// exchange places.
pub open spec fn is_slide(a: Seq<u16>, b: Seq<u16>, size: u16) -> bool {
    exists|zx: int, zy: int, nx: int, ny: int| slide_at(a, b, zx, zy, nx, ny, size)
}

/// A chain of boards each one blank slide from the one before.
pub open spec fn path_ok(path: Seq<Seq<u16>>, size: u16) -> bool {
    &&& path.len() >= 1
    &&& forall|i: int|
        0 <= i < path.len() - 1 ==> is_slide(#[trigger] path[i], path[i + 1], size)
}

/// `b` can be reached from `a` by some sequence of blank slides (possibly
/// none).
pub open spec fn reachable(a: Seq<u16>, b: Seq<u16>, size: u16) -> bool {
    exists|path: Seq<Seq<u16>>|
        path_ok(path, size) && path[0] == a && path[path.len() - 1] == b
}

/// Flat row-major indexing is one-to-one on board coordinates.
pub proof fn lemma_coord_unique(x1: int, y1: int, x2: int, y2: int, size: int)
    requires
        0 <= x1 < size,
        0 <= y1 < size,
        0 <= x2 < size,
        0 <= y2 < size,
        x1 * size + y1 == x2 * size + y2,
    ensures
        x1 == x2 && y1 == y2,
{
    let i = x1 * size + y1;
    lemma_coord_index(x1, y1, size);
    vstd::arithmetic::div_mod::lemma_fundamental_div_mod_converse(i, size, x1, y1);
    vstd::arithmetic::div_mod::lemma_fundamental_div_mod_converse(i, size, x2, y2);
}

/// The boards one blank slide away from a well-formed state are exactly the
/// up-to-four swaps of its blank with an orthogonal neighbour.
pub proof fn lemma_slide_targets(s: State, b: Seq<u16>, size: u16)
    requires
        state_wf(s, size),
        is_slide(s.board@, b, size),
    ensures
        ({
            let a = s.board@;
            let zx = s.zero.x as int;
            let zy = s.zero.y as int;
            let zi = zx * size + zy;
            ||| (zx > 0 && b == swapped(a, zi, (zx - 1) * size + zy))
            ||| (zx + 1 < size && b == swapped(a, zi, (zx + 1) * size + zy))
            ||| (zy > 0 && b == swapped(a, zi, zx * size + (zy - 1)))
            ||| (zy + 1 < size && b == swapped(a, zi, zx * size + (zy + 1)))
        }),
{
    let a = s.board@;
    let zx = s.zero.x as int;
    let zy = s.zero.y as int;
    let (wx, wy, nx, ny) = choose|wx: int, wy: int, nx: int, ny: int|
        slide_at(a, b, wx, wy, nx, ny, size);
    lemma_coord_index(wx, wy, size as int);
    lemma_coord_index(zx, zy, size as int);
    assert(a[wx * size + wy] == 0 && a[zx * size + zy] == 0);
    assert(wx * size + wy == zx * size + zy);
    lemma_coord_unique(wx, wy, zx, zy, size as int);
}

/// A coordinate inside the board has a flat index inside the board.
pub proof fn lemma_coord_index(x: int, y: int, size: int)
    requires
        0 <= x < size,
        0 <= y < size,
    ensures
        0 <= x * size + y < size * size,
{
    assert(x * size + y < size * size) by (nonlinear_arith)
        requires
            0 <= x < size,
            0 <= y < size,
    ;
}

/// A board plus the cached coordinate of its blank; the unit of search.
#[derive(Debug, Clone)]
pub struct State {
    pub board: Vec<u16>,
    pub zero: Point,
}

/// A state fit for search on a board of side `size`: the board is a
/// well-formed permutation and `zero` really points at the blank.
pub open spec fn state_wf(s: State, size: u16) -> bool {
    &&& board_wf(s.board@, size)
    &&& s.zero.x < size && s.zero.y < size
    &&& s.board@[s.zero.x * size + s.zero.y] == 0
}

/// `c` is the child of `parent` whose blank went to (nx, ny): the two cells
/// are exchanged, everything else is untouched.
pub open spec fn child_shape(parent: State, c: State, nx: int, ny: int, size: u16) -> bool {
    &&& c.zero.x == nx && c.zero.y == ny
    &&& c.board@ == swapped(
        parent.board@,
        parent.zero.x * size + parent.zero.y,
        nx * size + ny,
    )
}

impl State {
    pub fn new(board: Vec<u16>, zero: Point) -> (s: State)
        ensures
            s.board == board,
            s.zero == zero,
    {
        State { board, zero }
    }

    /// Builds a state from a raw board, locating the blank by scanning.
    pub fn build_state(board: Vec<u16>, size: u16) -> (s: State)
        requires
            1 <= size <= 255,
            board@.len() == size * size,
            exists|i: int| 0 <= i < board@.len() && board@[i] == 0,
        ensures
            s.board == board,
            s.zero.x == first_zero(board@) / size as int,
            s.zero.y == first_zero(board@) % size as int,
            s.board@[s.zero.x * size + s.zero.y] == 0,
            s.zero.x < size && s.zero.y < size,
    {
        let mut i: usize = 0;
        let n = board.len();
        while i < n && board[i] != 0
            invariant
                0 <= i <= n,
                n == board@.len(),
                forall|j: int| 0 <= j < i ==> board@[j] != 0,
            decreases n - i,
        {
            i += 1;
        }
        proof {
            if i == n {
                let k = choose|k: int| 0 <= k < board@.len() && board@[k] == 0;
                assert(board@[k] != 0);
            }
            lemma_first_zero_at(board@, i as int);
            assert(i < n);
            assert((size as int) * (size as int) <= 65025) by (nonlinear_arith)
                requires
                    size <= 255,
            ;
        }
        let idx: u16 = i as u16;
        let zero = Point::from_1d(idx, size);
        proof {
            vstd::arithmetic::div_mod::lemma_fundamental_div_mod(idx as int, size as int);
            vstd::arithmetic::div_mod::lemma_div_pos_is_pos(idx as int, size as int);
            vstd::arithmetic::div_mod::lemma_multiply_divide_lt(
                idx as int,
                size as int,
                size as int,
            );
            vstd::arithmetic::div_mod::lemma_mod_bound(idx as int, size as int);
            vstd::arithmetic::mul::lemma_mul_is_commutative(zero.x as int, size as int);
        }
        State { board, zero }
    }

    /// The state reached by moving the blank to `new_pos`; the caller is
    /// responsible for `new_pos` being on the board.
    pub fn build_child(&self, new_pos: &Point, size: u16) -> (c: State)
        requires
            1 <= size <= 255,
            self.board@.len() == size * size,
            self.zero.x < size && self.zero.y < size,
            new_pos.x < size && new_pos.y < size,
        ensures
            child_shape(*self, c, new_pos.x as int, new_pos.y as int, size),
    {
        proof {
            lemma_coord_index(self.zero.x as int, self.zero.y as int, size as int);
            lemma_coord_index(new_pos.x as int, new_pos.y as int, size as int);
            assert((size as int) * (size as int) <= 65025) by (nonlinear_arith)
                requires
                    size <= 255,
            ;
        }
        let parent_idx = self.zero.to_1d(size) as usize;
        let child_idx = new_pos.to_1d(size) as usize;

        let mut v: Vec<u16> = self.board.clone();
        proof {
            assert(v@ =~= self.board@);
        }
        let pv = v[parent_idx];
        let cv = v[child_idx];
        v.set(parent_idx, cv);
        v.set(child_idx, pv);
        State::new(v, Point { x: new_pos.x, y: new_pos.y })
    }

    /// The up-to-four children of this state as one tuple, one slot per
    /// direction, in the fixed order: row up, row down, column left, column
    /// right.
    pub fn gen_children4(&self, size: u16) -> (r: (
        Option<State>,
        Option<State>,
        Option<State>,
        Option<State>,
    ))
        requires
            1 <= size <= 255,
            self.board@.len() == size * size,
            self.zero.x < size && self.zero.y < size,
        ensures
            (r.0 is Some) <==> self.zero.x > 0,
            (r.1 is Some) <==> self.zero.x + 1 < size,
            (r.2 is Some) <==> self.zero.y > 0,
            (r.3 is Some) <==> self.zero.y + 1 < size,
            self.zero.x > 0 ==> child_shape(
                *self,
                r.0.unwrap(),
                self.zero.x - 1,
                self.zero.y as int,
                size,
            ),
            self.zero.x + 1 < size ==> child_shape(
                *self,
                r.1.unwrap(),
                self.zero.x + 1,
                self.zero.y as int,
                size,
            ),
            self.zero.y > 0 ==> child_shape(
                *self,
                r.2.unwrap(),
                self.zero.x as int,
                self.zero.y - 1,
                size,
            ),
            self.zero.y + 1 < size ==> child_shape(
                *self,
                r.3.unwrap(),
                self.zero.x as int,
                self.zero.y + 1,
                size,
            ),
    {
        let c0 = match self.zero.left() {
            Some(p) => Some(self.build_child(&p, size)),
            None => None,
        };
        let c1 = match self.zero.right(size) {
            Some(p) => Some(self.build_child(&p, size)),
            None => None,
        };
        let c2 = match self.zero.up() {
            Some(p) => Some(self.build_child(&p, size)),
            None => None,
        };
        let c3 = match self.zero.down(size) {
            Some(p) => Some(self.build_child(&p, size)),
            None => None,
        };
        (c0, c1, c2, c3)
    }

    /// The same four children packed into an array.
    pub fn gen_children(&self, size: u16) -> (r: [Option<State>; 4])
        requires
            1 <= size <= 255,
            self.board@.len() == size * size,
            self.zero.x < size && self.zero.y < size,
        ensures
            (r@[0] is Some) <==> self.zero.x > 0,
            (r@[1] is Some) <==> self.zero.x + 1 < size,
            (r@[2] is Some) <==> self.zero.y > 0,
            (r@[3] is Some) <==> self.zero.y + 1 < size,
            self.zero.x > 0 ==> child_shape(
                *self,
                r@[0].unwrap(),
                self.zero.x - 1,
                self.zero.y as int,
                size,
            ),
            self.zero.x + 1 < size ==> child_shape(
                *self,
                r@[1].unwrap(),
                self.zero.x + 1,
                self.zero.y as int,
                size,
            ),
            self.zero.y > 0 ==> child_shape(
                *self,
                r@[2].unwrap(),
                self.zero.x as int,
                self.zero.y - 1,
                size,
            ),
            self.zero.y + 1 < size ==> child_shape(
                *self,
                r@[3].unwrap(),
                self.zero.x as int,
                self.zero.y + 1,
                size,
            ),
    {
        let (c0, c1, c2, c3) = self.gen_children4(size);
        [c0, c1, c2, c3]
    }
}

/// A child reached by one blank slide is again well-formed, and the pair of
/// boards is a legal transition.
pub proof fn lemma_child_wf(parent: State, c: State, nx: int, ny: int, size: u16)
    requires
        state_wf(parent, size),
        0 <= nx < size,
        0 <= ny < size,
        (nx == parent.zero.x && (ny == parent.zero.y - 1 || ny == parent.zero.y + 1)) || (ny
            == parent.zero.y && (nx == parent.zero.x - 1 || nx == parent.zero.x + 1)),
        child_shape(parent, c, nx, ny, size),
    ensures
        state_wf(c, size),
        is_slide(parent.board@, c.board@, size),
{
    let zx = parent.zero.x as int;
    let zy = parent.zero.y as int;
    let zi = zx * size + zy;
    let ci = nx * size + ny;
    let a = parent.board@;
    let b = c.board@;
    lemma_coord_index(zx, zy, size as int);
    lemma_coord_index(nx, ny, size as int);
    assert(zi != ci) by (nonlinear_arith)
        requires
            zi == zx * (size as int) + zy,
            ci == nx * (size as int) + ny,
            0 <= zx < size && 0 <= zy < size && 0 <= nx < size && 0 <= ny < size,
            (zx == nx && (zy == ny - 1 || ny == zy - 1)) || (zy == ny && (zx == nx - 1 || nx == zx
                - 1)),
    ;
    assert(b.len() == a.len());
    assert forall|i: int| 0 <= i < b.len() implies (#[trigger] b[i]) < b.len() by {
        assert(b[i] == a[i] || b[i] == a[zi] || b[i] == a[ci]);
    }
    assert forall|i: int, j: int| 0 <= i < j < b.len() implies b[i] != b[j] by {
        let pi: int = if i == zi { ci } else if i == ci { zi } else { i };
        let pj: int = if j == zi { ci } else if j == ci { zi } else { j };
        assert(b[i] == a[pi] && b[j] == a[pj]);
        assert(pi != pj);
    }
    assert(b[ci] == 0);
    assert(slide_at(a, b, zx, zy, nx, ny, size));
}

impl From<Board> for State {
    /// Builds a state from a raw board, locating the blank by scanning; a
    /// board with no blank, or one too large to index, gets the origin.
    fn from(map: Board) -> (s: State) {
        let size = map.size;
        let n = map.board.len();
        let mut i: usize = 0;
        while i < n && map.board[i] != 0
            invariant
                0 <= i <= n,
                n == map.board@.len(),
                forall|j: int| 0 <= j < i ==> map.board@[j] != 0,
            decreases n - i,
        {
            i += 1;
        }
        proof {
            lemma_first_zero_at(map.board@, i as int);
        }
        let zero: Point = if size == 0 || i > u16::MAX as usize {
            Point { x: 0, y: 0 }
        } else {
            Point::from_1d(i as u16, size)
        };
        State { board: map.board, zero }
    }
}

impl vstd::std_specs::convert::FromSpecImpl<Board> for State {
    open spec fn obeys_from_spec() -> bool {
        true
    }

    open spec fn from_spec(map: Board) -> State {
        let fz = first_zero(map.board@);
        let zero = if map.size == 0 || fz > u16::MAX {
            Point { x: 0, y: 0 }
        } else {
            Point { x: (fz / map.size as int) as u16, y: (fz % map.size as int) as u16 }
        };
        State { board: map.board, zero }
    }
}

} // verus!
