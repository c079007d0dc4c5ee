//! Numbered places for the nodes of linked structures.

use vstd::prelude::*;

verus! {

/// `free` names empty places, none of them twice.
pub open spec fn free_places<T>(places: Seq<Option<T>>, free: Seq<usize>) -> bool {
    &&& free.no_duplicates()
    &&& forall|i: int|
        0 <= i < free.len() ==> #[trigger] free[i] < places.len() && places[free[i] as int] is None
}

/// `after` is `before` with a node put in an empty place or a new one.
pub open spec fn placed<T>(
    before: Seq<Option<T>>,
    after: Seq<Option<T>>,
    id: usize,
    node: T,
) -> bool {
    &&& before.len() <= after.len()
    &&& id < after.len()
    &&& id < before.len() ==> before[id as int] is None
    &&& after[id as int] == Some(node)
    &&& forall|i: int| 0 <= i < before.len() && i != id ==> #[trigger] after[i] == before[i]
}

/// Put a node in a free place, or in a new one where none is free.
pub fn place<T>(places: &mut Vec<Option<T>>, free: &mut Vec<usize>, node: T) -> (id: usize)
    requires
        free_places(old(places)@, old(free)@),
    ensures
        free_places(final(places)@, final(free)@),
        placed(old(places)@, final(places)@, id, node),
        old(free)@.len() > 0 ==> id == old(free)@.last() && final(free)@ == old(free)@.drop_last()
            && final(places)@.len() == old(places)@.len(),
        old(free)@.len() == 0 ==> id == old(places)@.len() && final(free)@ == old(free)@
            && final(places)@.len() == old(places)@.len() + 1,
{
    match free.pop() {
        Some(id) => {
            assert(old(free)@[old(free)@.len() - 1] == id);
            places.set(id, Some(node));
            proof {
                assert forall|i: int| 0 <= i < free@.len() implies #[trigger] free@[i]
                    < places@.len() && places@[free@[i] as int] is None by {
                    assert(old(free)@[i] < places@.len());
                }
            }
            id
        },
        None => {
            let id: usize = places.len();
            places.push(Some(node));
            id
        },
    }
}

/// Empty a place.
pub fn vacate<T>(places: &mut Vec<Option<T>>, free: &mut Vec<usize>, id: usize)
    requires
        free_places(old(places)@, old(free)@),
        id < old(places)@.len(),
        old(places)@[id as int] is Some,
    ensures
        free_places(final(places)@, final(free)@),
        final(places)@ == old(places)@.update(id as int, None),
        final(free)@ == old(free)@.push(id),
{
    places.set(id, None);
    free.push(id);
    proof {
        assert forall|i: int| 0 <= i < free@.len() implies #[trigger] free@[i] < places@.len()
            && places@[free@[i] as int] is None by {
            if i < old(free)@.len() {
                assert(old(free)@[i] < places@.len());
            }
        }
        assert(free@.no_duplicates()) by {
            assert forall|i: int, j: int|
                0 <= i < free@.len() && 0 <= j < free@.len() && i != j implies free@[i]
                != free@[j] by {
                if i < old(free)@.len() {
                    assert(old(free)@[i] < places@.len());
                }
                if j < old(free)@.len() {
                    assert(old(free)@[j] < places@.len());
                }
            }
        }
    }
}

} // verus!
