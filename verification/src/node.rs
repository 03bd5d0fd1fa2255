//! The node arena of the search: every discovered state is a node holding
//! its parent's index and its depth, so the path to the root can be walked
//! without back-pointers; and the frontier ordering strategies.

use crate::state::{is_slide, state_wf, State};
use vstd::prelude::*;

verus! {

/// One arena entry: a state, the arena index of its parent (`None` for the
/// root alone) and the number of moves from the root.
pub struct Node {
    pub parent: Option<usize>,
    pub state: State,
    pub moves: usize,
}

/// Parent links only ever point backwards in the arena.
pub open spec fn parents_ok(nodes: Seq<Node>) -> bool {
    forall|i: int|
        0 <= i < nodes.len() ==> ((#[trigger] nodes[i].parent) matches Some(p) ==> 0 <= p < i)
}

/// The path of states from the root to node `i`, following parent links.
pub open spec fn chain_to(nodes: Seq<Node>, i: int) -> Seq<State>
    decreases i,
{
    if 0 <= i < nodes.len() {
        match nodes[i].parent {
            Some(p) => if 0 <= p < i {
                chain_to(nodes, p as int).push(nodes[i].state)
            } else {
                Seq::empty()
            },
            None => seq![nodes[i].state],
        }
    } else {
        Seq::empty()
    }
}

/// The path of states from the root through `n`, a node whose parent sits in
/// the arena but which need not itself have been appended yet.
pub open spec fn chain_of(nodes: Seq<Node>, n: Node) -> Seq<State> {
    match n.parent {
        Some(p) => chain_to(nodes, p as int).push(n.state),
        None => seq![n.state],
    }
}

/// The links every non-root arena entry must satisfy: a backwards parent,
/// depth one more than the parent's, and a board one blank slide away.
pub open spec fn node_linked(nodes: Seq<Node>, i: int, size: u16) -> bool {
    &&& nodes[i].parent matches Some(p)
    &&& nodes[i].parent matches Some(p) ==> {
        &&& 0 <= p < i
        &&& nodes[i].moves == nodes[p as int].moves + 1
        &&& is_slide(nodes[p as int].state.board@, nodes[i].state.board@, size)
    }
}

/// A well-formed arena: one root at index 0, every other node linked.
pub open spec fn arena_ok(nodes: Seq<Node>, size: u16) -> bool {
    &&& nodes.len() >= 1
    &&& nodes[0].parent is None
    &&& nodes[0].moves == 0
    &&& forall|i: int| 0 <= i < nodes.len() ==> state_wf((#[trigger] nodes[i]).state, size)
    &&& forall|i: int| 1 <= i < nodes.len() ==> node_linked(nodes, i, size)
}

/// What the parent walk yields on a well-formed arena: the chain starts at
/// the root, has length depth + 1, each element is the state of some node at
/// its own depth, and consecutive elements are one blank slide apart.
pub proof fn lemma_chain_props(nodes: Seq<Node>, i: int, size: u16)
    requires
        arena_ok(nodes, size),
        0 <= i < nodes.len(),
    ensures
        chain_to(nodes, i).len() == nodes[i].moves + 1,
        chain_to(nodes, i)[0] == nodes[0].state,
        chain_to(nodes, i)[nodes[i].moves as int] == nodes[i].state,
        forall|m: int|
            0 <= m < chain_to(nodes, i).len() ==> exists|idx: int|
                0 <= idx <= i && nodes[idx].moves == m && (#[trigger] chain_to(nodes, i)[m])
                    == nodes[idx].state,
        forall|m: int|
            0 <= m < chain_to(nodes, i).len() - 1 ==> is_slide(
                (#[trigger] chain_to(nodes, i)[m]).board@,
                chain_to(nodes, i)[m + 1].board@,
                size,
            ),
    decreases i,
{
    if i == 0 {
        assert(nodes[0].parent is None);
        assert(chain_to(nodes, 0) == seq![nodes[0].state]);
        assert(nodes[0].moves == 0);
        assert forall|m: int| 0 <= m < chain_to(nodes, 0).len() implies exists|idx: int|
            0 <= idx <= 0 && nodes[idx].moves == m && (#[trigger] chain_to(nodes, 0)[m])
                == nodes[idx].state by {
            assert(m == 0);
            assert(nodes[0].moves == 0 && chain_to(nodes, 0)[0] == nodes[0].state);
        }
    } else {
        assert(node_linked(nodes, i, size));
        let p = nodes[i].parent.unwrap() as int;
        lemma_chain_props(nodes, p, size);
        let pre = chain_to(nodes, p);
        let c = chain_to(nodes, i);
        assert(c == pre.push(nodes[i].state));
        let d = nodes[i].moves as int;
        assert(c.len() == d + 1);
        assert forall|m: int| 0 <= m < c.len() implies exists|idx: int|
            0 <= idx <= i && nodes[idx].moves == m && (#[trigger] c[m]) == nodes[idx].state by {
            if m < c.len() - 1 {
                assert(c[m] == pre[m]);
                let idx = choose|idx: int|
                    0 <= idx <= p && nodes[idx].moves == m && (#[trigger] pre[m])
                        == nodes[idx].state;
                assert(0 <= idx <= i && nodes[idx].moves == m && c[m] == nodes[idx].state);
            } else {
                assert(c[m] == nodes[i].state && nodes[i].moves == m);
            }
        }
        assert forall|m: int| 0 <= m < c.len() - 1 implies is_slide(
            (#[trigger] c[m]).board@,
            c[m + 1].board@,
            size,
        ) by {
            if m < c.len() - 2 {
                assert(c[m] == pre[m] && c[m + 1] == pre[m + 1]);
            } else {
                assert(c[m] == pre[pre.len() - 1] && c[m + 1] == nodes[i].state);
                assert(pre[nodes[p].moves as int] == nodes[p].state);
            }
        }
    }
}

impl Node {
    /// Walks parent links from this node back to the root, collecting the
    /// states, and returns them ordered from the root to this node.
    pub fn collect_parents(&self, nodes: &Vec<Node>) -> (path: Vec<State>)
        requires
            parents_ok(nodes@),
            self.parent matches Some(p) ==> 0 <= p < nodes@.len(),
        ensures
            path@.len() == chain_of(nodes@, *self).len(),
            forall|m: int|
                0 <= m < path@.len() ==> (#[trigger] path@[m]).board@ == chain_of(
                    nodes@,
                    *self,
                )[m].board@ && path@[m].zero == chain_of(nodes@, *self)[m].zero,
    {
        let ghost full = chain_of(nodes@, *self);
        let mut rev: Vec<State> = Vec::new();
        rev.push(State { board: clone_board(&self.state.board), zero: self.state.zero });
        let mut cur: Option<usize> = self.parent;
        loop
            invariant
                parents_ok(nodes@),
                cur matches Some(p) ==> 0 <= p < nodes@.len(),
                rev@.len() >= 1,
                cur matches Some(p) ==> full.len() == chain_to(nodes@, p as int).len()
                    + rev@.len(),
                cur is None ==> full.len() == rev@.len(),
                cur matches Some(p) ==> forall|m: int|
                    0 <= m < chain_to(nodes@, p as int).len() ==> (#[trigger] chain_to(
                        nodes@,
                        p as int,
                    )[m]) == full[m],
                forall|m: int|
                    0 <= m < rev@.len() ==> (#[trigger] rev@[m]).board@ == full[full.len() - 1
                        - m].board@ && rev@[m].zero == full[full.len() - 1 - m].zero,
            ensures
                rev@.len() == full.len(),
                forall|m: int|
                    0 <= m < rev@.len() ==> (#[trigger] rev@[m]).board@ == full[full.len() - 1
                        - m].board@ && rev@[m].zero == full[full.len() - 1 - m].zero,
            decreases (if cur is Some {
                cur.unwrap() + 1
            } else {
                0
            }),
        {
            match cur {
                None => {
                    break ;
                },
                Some(p) => {
                    let node = &nodes[p];
                    proof {
                        let pi = p as int;
                        match nodes@[pi].parent {
                            Some(pp) => {
                                assert(0 <= pp < pi);
                                assert(chain_to(nodes@, pi) == chain_to(nodes@, pp as int).push(
                                    nodes@[pi].state,
                                ));
                                assert forall|m: int|
                                    0 <= m < chain_to(nodes@, pp as int).len() implies (
                                #[trigger] chain_to(nodes@, pp as int)[m]) == full[m] by {
                                    assert(chain_to(nodes@, pp as int)[m] == chain_to(
                                        nodes@,
                                        pi,
                                    )[m]);
                                }
                            },
                            None => {
                                assert(chain_to(nodes@, pi) == seq![nodes@[pi].state]);
                            },
                        }
                        assert(chain_to(nodes@, pi)[chain_to(nodes@, pi).len() - 1]
                            == nodes@[pi].state);
                        assert(full[chain_to(nodes@, pi).len() - 1] == nodes@[pi].state);
                    }
                    rev.push(State { board: clone_board(&node.state.board), zero: node.state.zero });
                    cur = node.parent;
                },
            }
        }
        let mut path: Vec<State> = Vec::new();
        let mut k = rev.len();
        while k > 0
            invariant
                0 <= k <= rev@.len(),
                rev@.len() == full.len(),
                path@.len() == full.len() - k,
                forall|m: int|
                    0 <= m < rev@.len() ==> (#[trigger] rev@[m]).board@ == full[full.len() - 1
                        - m].board@ && rev@[m].zero == full[full.len() - 1 - m].zero,
                forall|m: int|
                    0 <= m < path@.len() ==> (#[trigger] path@[m]).board@ == full[m].board@
                        && path@[m].zero == full[m].zero,
            decreases k,
        {
            k -= 1;
            let s = &rev[k];
            path.push(State { board: clone_board(&s.board), zero: s.zero });
        }
        path
    }
}

/// An element-wise copy of a board vector.
pub(crate) fn clone_board(v: &Vec<u16>) -> (r: Vec<u16>)
    ensures
        r@ == v@,
{
    let mut r: Vec<u16> = Vec::new();
    let n = v.len();
    let mut i: usize = 0;
    while i < n
        invariant
            0 <= i <= n,
            n == v@.len(),
            r@ == v@.subrange(0, i as int),
        decreases n - i,
    {
        r.push(v[i]);
        proof {
            assert(r@ =~= v@.subrange(0, i as int + 1));
        }
        i += 1;
    }
    proof {
        assert(r@ =~= v@);
    }
    r
}

/// A frontier ordering strategy: builds a lightweight key from an arena
/// index, a score and a depth, hands the index back, and totally orders the
/// keys; the search always extracts a key with the least `spec_key`.
pub trait Priority: Sized {
    /// The arena index the key stands for.
    spec fn spec_index(&self) -> int;

    /// The value the frontier is ordered by.
    spec fn spec_key(&self) -> int;

    /// How this strategy folds score and depth into the ordering value.
    spec fn key_of(score: int, moves: int) -> int;

    fn new(index: usize, score: u64, moves: usize) -> (r: Self)
        ensures
            r.spec_index() == index,
            r.spec_key() == Self::key_of(score as int, moves as int);

    fn get_index(&self) -> (r: usize)
        ensures
            r == self.spec_index();

    /// Total order on keys, consumed by minimum extraction.
    fn le(&self, other: &Self) -> (r: bool)
        ensures
            r == (self.spec_key() <= other.spec_key());
}

/// Orders by score plus accumulated moves, the classic best-first ordering
/// for an estimated total path length.
pub struct LinearPriority {
    pub index: usize,
    pub score: u64,
    pub moves: usize,
}

/// Orders by accumulated moves alone; the score is ignored.
pub struct UniformPriority {
    pub index: usize,
    pub moves: usize,
}

/// Orders by score alone; the accumulated moves are ignored.
pub struct GreedyPriority {
    pub index: usize,
    pub score: u64,
}

impl Priority for LinearPriority {
    open spec fn spec_index(&self) -> int {
        self.index as int
    }

    open spec fn spec_key(&self) -> int {
        self.score + self.moves
    }

    open spec fn key_of(score: int, moves: int) -> int {
        score + moves
    }

    fn new(index: usize, score: u64, moves: usize) -> (r: Self) {
        Self { index, score, moves }
    }

    fn get_index(&self) -> (r: usize) {
        self.index
    }

    fn le(&self, other: &Self) -> (r: bool) {
        self.score as u128 + self.moves as u128 <= other.score as u128 + other.moves as u128
    }
}

impl Priority for UniformPriority {
    open spec fn spec_index(&self) -> int {
        self.index as int
    }

    open spec fn spec_key(&self) -> int {
        self.moves as int
    }

    open spec fn key_of(score: int, moves: int) -> int {
        moves
    }

    fn new(index: usize, _score: u64, moves: usize) -> (r: Self) {
        Self { index, moves }
    }

    fn get_index(&self) -> (r: usize) {
        self.index
    }

    fn le(&self, other: &Self) -> (r: bool) {
        self.moves <= other.moves
    }
}

impl Priority for GreedyPriority {
    open spec fn spec_index(&self) -> int {
        self.index as int
    }

    open spec fn spec_key(&self) -> int {
        self.score as int
    }

    open spec fn key_of(score: int, moves: int) -> int {
        score
    }

    fn new(index: usize, score: u64, _moves: usize) -> (r: Self) {
        Self { index, score }
    }

    fn get_index(&self) -> (r: usize) {
        self.index
    }

    fn le(&self, other: &Self) -> (r: bool) {
        self.score <= other.score
    }
}

} // verus!
