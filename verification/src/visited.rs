//! The deduplication index of the search: a hash set of board contents from
//! the `ahash` crate, seen by the verifier only through the contracts below.
//! `AHashSet` wraps a `std::collections::HashSet` (reached through `Deref`)
//! whose documented behaviour the three wrappers state.

use vstd::prelude::*;

verus! {

#[verifier::external_type_specification]
#[verifier::external_body]
pub struct ExARandomState(ahash::RandomState);

#[verifier::external_type_specification]
#[verifier::external_body]
#[verifier::reject_recursive_types(T)]
#[verifier::reject_recursive_types(S)]
pub struct ExAHashSet<T, S>(ahash::AHashSet<T, S>);

/// The set of boards an `ahash::AHashSet` of board vectors holds.
pub uninterp spec fn visited_set(s: ahash::AHashSet<Vec<u16>>) -> Set<Seq<u16>>;

/// Relies on ahash::AHashSet::new: a freshly created set holds nothing.
#[verifier::external_body]
pub fn visited_new() -> (s: ahash::AHashSet<Vec<u16>>)
    ensures
        visited_set(s) == Set::<Seq<u16>>::empty(),
{
    ahash::AHashSet::new()
}

/// Relies on HashSet::insert, reached through AHashSet's Deref: the value
/// joins the set, and the call reports whether it was new.  Two board
/// vectors are equal exactly when their contents are.
#[verifier::external_body]
pub fn visited_insert(s: &mut ahash::AHashSet<Vec<u16>>, v: Vec<u16>) -> (r: bool)
    ensures
        visited_set(*final(s)) == visited_set(*old(s)).insert(v@),
        r == !visited_set(*old(s)).contains(v@),
{
    s.insert(v)
}

/// Relies on HashSet::len, reached through AHashSet's Deref: the number of
/// elements the set holds.
#[verifier::external_body]
pub fn visited_len(s: &ahash::AHashSet<Vec<u16>>) -> (n: usize)
    requires
        visited_set(*s).finite(),
    ensures
        n == visited_set(*s).len(),
{
    s.len()
}

} // verus!
