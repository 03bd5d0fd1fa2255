//! Random board generation: a freshly numbered board shuffled in place by
//! the `rand` crate.  Whatever order comes back, the result is a well-formed
//! permutation; no solvability is promised.

use crate::map::{board_wf, Board};
use rand::seq::SliceRandom;
use vstd::prelude::*;
use vstd::seq_lib::group_to_multiset_ensures;

verus! {

/// Generates random boards of one fixed size.
pub struct Generator {
    pub size: usize,
    pub board_size: usize,
}

impl Generator {
    pub open spec fn wf(&self) -> bool {
        &&& 2 <= self.size <= 255
        &&& self.board_size == self.size * self.size
    }

    pub fn new(size: usize) -> (r: Self)
        requires
            2 <= size <= 255,
        ensures
            r.size == size,
            r.wf(),
    {
        proof {
            assert(size * size <= 65025) by (nonlinear_arith)
                requires
                    size <= 255,
            ;
        }
        Self { size, board_size: size * size }
    }

    /// A uniformly shuffled board: the tiles are exactly `0..size * size`,
    /// in an order chosen by the thread's random generator.
    pub fn generate(&self) -> (r: Board)
        requires
            self.wf(),
        ensures
            r.size == self.size as u16,
            board_wf(r.board@, r.size),
    {
        proof {
            assert(4 <= self.size * self.size <= 65025) by (nonlinear_arith)
                requires
                    2 <= self.size <= 255,
            ;
        }
        let total = self.board_size;
        let mut board: Vec<u16> = Vec::new();
        let mut i: usize = 0;
        while i < total
            invariant
                0 <= i <= total,
                total <= 65025,
                board@.len() == i,
                forall|j: int| 0 <= j < i ==> (#[trigger] board@[j]) == j,
            decreases total - i,
        {
            board.push(i as u16);
            i += 1;
        }
        let ghost fresh = board@;
        shuffle_board(&mut board);
        proof {
            broadcast use group_to_multiset_ensures;

            let b2 = board@;
            assert(fresh.no_duplicates());
            fresh.lemma_multiset_has_no_duplicates();
            assert(b2.to_multiset() == fresh.to_multiset());
            assert(b2.len() == b2.to_multiset().len());
            assert(fresh.len() == fresh.to_multiset().len());
            assert(fresh.len() == total && total >= 4);
            assert forall|k: int| 0 <= k < b2.len() implies (#[trigger] b2[k]) < b2.len() by {
                assert(b2.contains(b2[k]));
                assert(b2.to_multiset().count(b2[k]) > 0);
                assert(fresh.contains(b2[k]));
                let j = choose|j: int| 0 <= j < fresh.len() && fresh[j] == b2[k];
                assert(fresh[j] == j);
            }
            assert forall|x: u16| b2.to_multiset().contains(x) implies b2.to_multiset().count(x)
                == 1 by {
                assert(fresh.to_multiset().contains(x));
            }
            b2.lemma_multiset_has_no_duplicates_conv();
            assert forall|k: int, l: int| 0 <= k < l < b2.len() implies b2[k] != b2[l] by {
                assert(b2.no_duplicates());
            }
            assert(fresh[0] == 0 && fresh.contains(0u16));
            assert(b2.to_multiset().count(0u16) > 0);
            assert(b2.contains(0u16));
            let z = choose|z: int| 0 <= z < b2.len() && b2[z] == 0;
            assert(0 <= z < b2.len() && b2[z] == 0);
        }
        Board { size: self.size as u16, board }
    }
}

/// Relies on rand's SliceRandom::shuffle with thread_rng: it permutes the
/// vector in place; which permutation comes back depends on the thread's
/// generator, so only the multiset of tiles is promised.
#[verifier::external_body]
fn shuffle_board(v: &mut Vec<u16>)
    ensures
        final(v)@.to_multiset() == old(v)@.to_multiset(),
{
    v.shuffle(&mut rand::thread_rng())
}

} // verus!
