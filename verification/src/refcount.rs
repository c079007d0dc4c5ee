//! Objects shared by counted references.
//!
//! A [`RefHeap`] holds the objects, each with the number of references to it. A
//! reference ([`Ref`]) is a name for an object: whatever is done to the object
//! through one reference is seen through every other.

use vstd::prelude::*;

verus! {

/// An object with the number of references to it.
pub struct Counted<T> {
    pub value: T,
    pub count: u32,
}

/// A reference to an object of a heap.
#[derive(Debug, PartialEq, Eq, Structural)]
pub struct Ref {
    index: usize,
}

/// Objects with counted references.
pub struct RefHeap<T> {
    slots: Vec<Option<Counted<T>>>,
    free: Vec<usize>,
}

impl Ref {
    /// The object that is referred to.
    pub closed spec fn id(&self) -> int {
        self.index as int
    }

    /// Whether two references are to one object.
    pub fn same(&self, other: &Ref) -> (same: bool)
        ensures
            same == (self.id() == other.id()),
    {
        self.index == other.index
    }
}

impl<T> View for RefHeap<T> {
    type V = Map<int, Counted<T>>;

    /// The objects that are alive.
    closed spec fn view(&self) -> Map<int, Counted<T>> {
        Map::new(
            |i: int| 0 <= i < self.slots@.len() && self.slots@[i] is Some,
            |i: int| self.slots@[i]->0,
        )
    }
}

impl<T> RefHeap<T> {
    /// The object of a reference is alive.
    pub open spec fn has(&self, r: &Ref) -> bool {
        self@.contains_key(r.id())
    }

    /// The object of a reference.
    pub open spec fn value(&self, r: &Ref) -> T {
        self@[r.id()].value
    }

    /// The number of references to the object of a reference.
    pub open spec fn count(&self, r: &Ref) -> u32 {
        self@[r.id()].count
    }

    /// A heap without objects.
    pub fn new() -> (heap: Self)
        ensures
            heap@ == Map::<int, Counted<T>>::empty(),
    {
        let heap = RefHeap { slots: Vec::new(), free: Vec::new() };
        assert(heap@ =~= Map::<int, Counted<T>>::empty());
        heap
    }

    /// An empty slot.
    fn vacant(&mut self) -> (index: usize)
        ensures
            index < final(self).slots@.len(),
            final(self).slots@[index as int] is None,
            final(self)@ == old(self)@,
    {
        if let Some(index) = self.free.pop() {
            if index < self.slots.len() && self.slots[index].is_none() {
                return index;
            }
        }
        self.slots.push(None);
        assert(self@ =~= old(self)@);
        self.slots.len() - 1
    }

    /// Take an object in, with one reference to it.
    pub fn adopt(&mut self, value: T) -> (r: Ref)
        ensures
            !old(self).has(&r),
            final(self)@ == old(self)@.insert(r.id(), Counted { value, count: 1 }),
    {
        let index: usize = self.vacant();
        self.slots[index] = Some(Counted { value, count: 1 });
        assert(self@ =~= old(self)@.insert(index as int, Counted { value, count: 1 }));
        Ref { index }
    }

    /// The object of a reference.
    pub fn get(&self, r: &Ref) -> (value: &T)
        requires
            self.has(r),
        ensures
            *value == self.value(r),
    {
        &self.slots[r.index].as_ref().unwrap().value
    }

    /// The object of a reference, to be changed.
    pub fn get_mut(&mut self, r: &Ref) -> (value: &mut T)
        requires
            old(self).has(r),
        ensures
            *value == old(self).value(r),
            final(self)@ == old(self)@.insert(
                r.id(),
                Counted { value: *final(value), count: old(self).count(r) },
            ),
    {
        let counted = self.slots[r.index].as_mut().unwrap();
        &mut counted.value
    }

    /// One more reference to the object of `r`.
    pub fn add_ref(&mut self, r: &Ref) -> (copy: Ref)
        requires
            old(self).has(r),
            old(self).count(r) < u32::MAX,
        ensures
            copy.id() == r.id(),
            final(self)@ == old(self)@.insert(
                r.id(),
                Counted { value: old(self).value(r), count: (old(self).count(r) + 1) as u32 },
            ),
    {
        if let Some(counted) = self.slots[r.index].take() {
            let more = Counted { value: counted.value, count: counted.count + 1 };
            self.slots[r.index] = Some(more);
        }
        assert(self@ =~= old(self)@.insert(
            r.id(),
            Counted { value: old(self).value(r), count: (old(self).count(r) + 1) as u32 },
        ));
        Ref { index: r.index }
    }

    /// Give up a reference. With the last one the object leaves the heap and is returned.
    pub fn release(&mut self, r: Ref) -> (value: Option<T>)
        requires
            old(self).has(&r),
            old(self).count(&r) > 0,
        ensures
            old(self).count(&r) == 1 ==> {
                &&& value == Some(old(self).value(&r))
                &&& final(self)@ == old(self)@.remove(r.id())
            },
            old(self).count(&r) > 1 ==> {
                &&& value is None
                &&& final(self)@ == old(self)@.insert(
                    r.id(),
                    Counted { value: old(self).value(&r), count: (old(self).count(&r) - 1) as u32 },
                )
            },
    {
        match self.slots[r.index].take() {
            Some(counted) => {
                if counted.count == 1 {
                    self.free.push(r.index);
                    assert(self@ =~= old(self)@.remove(r.id()));
                    Some(counted.value)
                } else {
                    let less = Counted { value: counted.value, count: counted.count - 1 };
                    self.slots[r.index] = Some(less);
                    assert(self@ =~= old(self)@.insert(
                        r.id(),
                        Counted {
                            value: old(self).value(&r),
                            count: (old(self).count(&r) - 1) as u32,
                        },
                    ));
                    None
                }
            },
            None => None,
        }
    }
}

/// Taking one more reference to an object and giving it up leaves the heap as it was.
pub proof fn law_ref_then_unref<T>(heap: Map<int, Counted<T>>, id: int)
    requires
        heap.contains_key(id),
        0 < heap[id].count < u32::MAX,
    ensures
        ({
            let more = heap.insert(
                id,
                Counted { value: heap[id].value, count: (heap[id].count + 1) as u32 },
            );
            more.insert(id, Counted { value: more[id].value, count: (more[id].count - 1) as u32 })
                == heap
        }),
{
    let more = heap.insert(
        id,
        Counted { value: heap[id].value, count: (heap[id].count + 1) as u32 },
    );
    assert(more.insert(id, Counted { value: more[id].value, count: (more[id].count - 1) as u32 })
        =~= heap);
}

} // verus!
