//! The lookup table of the sparse oracle: from the index of a hypercube
//! point to the position of its entry.
//!
//! The table is a `hashbrown::HashMap<usize, usize>`. Verus does not read
//! that crate, so what its methods do is stated here and believed.

use vstd::prelude::*;

verus! {

/// A hash table from point indices to entry positions.
#[verifier::external_body]
pub struct PointIndex {
    table: hashbrown::HashMap<usize, usize>,
}

/// What the table holds: the position stored under each index.
pub uninterp spec fn index_contents(t: PointIndex) -> Map<usize, usize>;

/// `hashbrown::HashMap::new`: a table that holds nothing.
#[verifier::external_body]
pub(crate) fn index_new() -> (fresh: PointIndex)
    ensures
        index_contents(fresh).dom() == Set::<usize>::empty(),
{
    PointIndex { table: hashbrown::HashMap::new() }
}

/// `hashbrown::HashMap::insert`: stores `position` under `index` and
/// returns the position that was stored there before, if there was one;
/// every other index keeps what it had.
#[verifier::external_body]
pub(crate) fn index_insert(t: &mut PointIndex, index: usize, position: usize) -> (before: Option<usize>)
    ensures
        index_contents(*final(t)) == index_contents(*old(t)).insert(index, position),
        before == if index_contents(*old(t)).dom().contains(index) {
            Some(index_contents(*old(t))[index])
        } else {
            None::<usize>
        },
{
    t.table.insert(index, position)
}

/// `hashbrown::HashMap::get`: the position stored under `index`, if there
/// is one.
#[verifier::external_body]
pub(crate) fn index_get(t: &PointIndex, index: usize) -> (position: Option<usize>)
    ensures
        position == if index_contents(*t).dom().contains(index) {
            Some(index_contents(*t)[index])
        } else {
            None::<usize>
        },
{
    t.table.get(&index).copied()
}

} // verus!
