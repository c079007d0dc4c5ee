//! Growable arrays of pointers.
//!
//! A pointer is an address that the array only carries. An array can have its
//! elements freed when they leave it: it then lists those whose freeing is due,
//! for its owner to see to.

use vstd::prelude::*;
use crate::array::move_down;
use crate::growth::nearest_pow;
use crate::refcount::{Counted, Ref, RefHeap};
use crate::sort::merge_sort;

verus! {

/// An address; 0 is the null pointer.
pub type GPointer = usize;

/// The least number of pointers that is allocated.
pub const MIN_ARRAY_CAPACITY: u32 = 16;

/// A growable array of pointers.
pub struct PtrArray {
    pdata: Option<Vec<GPointer>>,
    len: u32,
    null_terminated: bool,
    frees: bool,
    freed: Vec<GPointer>,
}

/// What an array is made of: its buffer, if it has one, and how many of the pointers in it are
/// elements.
pub struct PtrArrayParts {
    pub buffer: Option<Seq<GPointer>>,
    pub len: int,
    pub null_terminated: bool,
}

/// The bytes of a pointer.
pub open spec fn pointer_size() -> int {
    usize::BITS as int / 8
}

/// Null pointers.
pub open spec fn nulls(n: int) -> Seq<GPointer> {
    Seq::new(n as nat, |i: int| 0usize)
}

/// An array can have `n` elements: with a null pointer behind them they can be counted, and take
/// up at most half of all addresses.
pub open spec fn room_for(null_terminated: bool, n: int) -> bool {
    let all = if null_terminated {
        n + 1
    } else {
        n
    };
    all <= u32::MAX && all * pointer_size() <= usize::MAX / 2
}

/// The number of pointers that are allocated for `want` of them.
pub open spec fn allocation(want: int) -> int {
    let near = crate::growth::nearest_power(want * pointer_size());
    let least = MIN_ARRAY_CAPACITY * pointer_size();
    (if near < least {
        least
    } else {
        near
    }) / pointer_size()
}

impl PtrArrayParts {
    /// The buffer; empty where there is none.
    pub open spec fn pointers(&self) -> Seq<GPointer> {
        match self.buffer {
            Some(buffer) => buffer,
            None => Seq::empty(),
        }
    }

    /// The elements.
    pub open spec fn items(&self) -> Seq<GPointer> {
        self.pointers().take(self.len)
    }

    /// Pointers that `n` more elements need, with a null pointer behind them.
    pub open spec fn wanted(&self, n: int) -> int {
        if self.null_terminated {
            self.len + n + 1
        } else {
            self.len + n
        }
    }

    /// With room for `n` more elements.
    pub open spec fn expanded(&self, n: int) -> PtrArrayParts {
        let want = self.wanted(n);
        let have = self.pointers();
        if want <= have.len() {
            *self
        } else {
            PtrArrayParts {
                buffer: Some(have + nulls(allocation(want) - have.len())),
                ..*self
            }
        }
    }

    /// With a null pointer behind the elements, where it is kept.
    pub open spec fn terminated(&self) -> PtrArrayParts {
        if self.null_terminated && self.buffer is Some {
            PtrArrayParts { buffer: Some(self.pointers().update(self.len, 0)), ..*self }
        } else {
            *self
        }
    }

    /// With one more element.
    pub open spec fn added(&self, data: GPointer) -> PtrArrayParts {
        PtrArrayParts {
            buffer: Some(self.expanded(1).pointers().update(self.len, data)),
            len: self.len + 1,
            ..*self
        }.terminated()
    }

    /// With null pointers as further elements, `length` in all.
    pub open spec fn filled(&self, length: int) -> PtrArrayParts {
        let room = self.expanded(length - self.len).pointers();
        PtrArrayParts {
            buffer: Some(room.take(self.len) + nulls(length - self.len) + room.skip(length)),
            len: length,
            ..*self
        }.terminated()
    }

    /// Without `n` elements from `index` on: those behind them move down.
    pub open spec fn without(&self, index: int, n: int) -> PtrArrayParts {
        let all = self.pointers();
        PtrArrayParts {
            buffer: Some(
                all.take(index) + all.subrange(index + n, self.len) + all.skip(self.len - n),
            ),
            len: self.len - n,
            ..*self
        }.terminated()
    }

    /// Without the element at `index`, with the last element in its place.
    pub open spec fn without_fast(&self, index: int) -> PtrArrayParts {
        let all = self.pointers();
        PtrArrayParts {
            buffer: Some(all.update(index, all[self.len - 1])),
            len: self.len - 1,
            ..*self
        }.terminated()
    }

    /// With the elements in another order.
    pub open spec fn reordered(&self, items: Seq<GPointer>) -> PtrArrayParts {
        PtrArrayParts { buffer: Some(items + self.pointers().skip(self.len)), ..*self }
    }

    /// Without a buffer.
    pub open spec fn emptied(&self) -> PtrArrayParts {
        PtrArrayParts { buffer: None, len: 0, ..*self }
    }
}

/// An array without elements, with room for some.
pub open spec fn reserved(n: int, null_terminated: bool) -> PtrArrayParts {
    let parts = PtrArrayParts { buffer: None, len: 0, null_terminated };
    if n > 0 {
        parts.expanded(n)
    } else {
        parts
    }
}

/// The bytes of a pointer.
fn pointer_bytes() -> (bytes: usize)
    ensures
        bytes == pointer_size(),
        bytes == 4 || bytes == 8,
{
    (usize::BITS / 8) as usize
}

impl View for PtrArray {
    type V = Seq<GPointer>;

    /// The elements.
    open spec fn view(&self) -> Seq<GPointer> {
        self.parts().items()
    }
}

impl PtrArray {
    /// What the array is made of.
    pub closed spec fn parts(&self) -> PtrArrayParts {
        PtrArrayParts {
            buffer: match self.pdata {
                Some(pdata) => Some(pdata@),
                None => None,
            },
            len: self.len as int,
            null_terminated: self.null_terminated,
        }
    }

    /// Elements that leave the array are to be freed.
    pub closed spec fn frees(&self) -> bool {
        self.frees
    }

    /// The elements whose freeing is due, in order.
    pub closed spec fn due(&self) -> Seq<GPointer> {
        self.freed@
    }

    /// The invariant of an array: the buffer holds the elements, with a null pointer behind them
    /// where it is kept.
    pub open spec fn wf(&self) -> bool {
        let parts = self.parts();
        &&& 0 <= parts.len
        &&& parts.wanted(0) <= parts.pointers().len() || parts.buffer is None
        &&& parts.buffer is None ==> parts.len == 0
        &&& parts.null_terminated && parts.buffer is Some ==> parts.pointers()[parts.len] == 0
        &&& parts.len <= u32::MAX
    }

    fn ptr_array_new(reserved_size: u32, frees: bool, null_terminated: bool) -> (array: Self)
        requires
            room_for(null_terminated, reserved_size as int),
        ensures
            array.wf(),
            array.parts() == reserved(reserved_size as int, null_terminated),
            array@ == Seq::<GPointer>::empty(),
            array.frees() == frees,
            array.due() == Seq::<GPointer>::empty(),
    {
        let mut array = PtrArray {
            pdata: None,
            len: 0,
            null_terminated,
            frees,
            freed: Vec::new(),
        };
        if reserved_size > 0 {
            array.maybe_expand(reserved_size);
        }
        assert(array@ =~= Seq::<GPointer>::empty());
        array
    }

    fn maybe_expand(&mut self, len: u32)
        requires
            old(self).parts().len + len <= u32::MAX,
            room_for(old(self).parts().null_terminated, old(self).parts().len + len),
        ensures
            final(self).parts() == old(self).parts().expanded(len as int),
            final(self).parts().wanted(0) + len <= final(self).parts().pointers().len(),
            final(self).frees() == old(self).frees(),
            final(self).due() == old(self).due(),
    {
        let want_len: u32 = if self.null_terminated {
            self.len + len + 1
        } else {
            self.len + len
        };
        let alloc: usize = match &self.pdata {
            Some(pdata) => pdata.len(),
            None => 0,
        };
        if want_len as usize <= alloc {
            return;
        }
        let size: usize = pointer_bytes();
        let want_bytes: usize = want_len as usize * size;
        proof {
            assert(want_bytes > 0) by (nonlinear_arith)
                requires
                    want_bytes == want_len * size,
                    want_len > 0,
                    size > 0,
            ;
        }
        let near: usize = nearest_pow(want_bytes);
        let least: usize = MIN_ARRAY_CAPACITY as usize * size;
        let want_alloc_bytes: usize = if near < least {
            least
        } else {
            near
        };
        let new_alloc: usize = want_alloc_bytes / size;
        proof {
            assert(new_alloc >= want_len) by (nonlinear_arith)
                requires
                    new_alloc == want_alloc_bytes as int / size as int,
                    want_alloc_bytes >= want_len * size,
                    size > 0,
            ;
        }
        let mut buffer: Vec<GPointer> = match self.pdata.take() {
            Some(pdata) => pdata,
            None => Vec::new(),
        };
        let ghost have = buffer@;
        buffer.resize(new_alloc, 0);
        assert(buffer@.take(have.len() as int) =~= have);
        assert(buffer@ =~= have + nulls(new_alloc - have.len()));
        self.pdata = Some(buffer);
    }

    /// Put a null pointer behind the elements, where it is kept.
    fn maybe_null_terminate(&mut self)
        requires
            old(self).parts().buffer is Some && old(self).parts().null_terminated ==> old(
                self,
            ).parts().len < old(self).parts().pointers().len(),
        ensures
            final(self).parts() == old(self).parts().terminated(),
            final(self).frees() == old(self).frees(),
            final(self).due() == old(self).due(),
    {
        if self.null_terminated {
            let end: usize = self.len as usize;
            if let Some(pdata) = self.pdata.as_mut() {
                pdata[end] = 0;
            }
        }
    }

    /// An empty array.
    pub fn new() -> (array: Self)
        ensures
            array.wf(),
            array.parts() == reserved(0, false),
            array@ == Seq::<GPointer>::empty(),
            !array.frees(),
            array.due() == Seq::<GPointer>::empty(),
    {
        Self::ptr_array_new(0, false, false)
    }

    /// An empty array whose elements are freed when they leave it.
    pub fn new_with_free_func() -> (array: Self)
        ensures
            array.wf(),
            array.parts() == reserved(0, false),
            array@ == Seq::<GPointer>::empty(),
            array.frees(),
            array.due() == Seq::<GPointer>::empty(),
    {
        Self::ptr_array_new(0, true, false)
    }

    /// An empty array with room for `reserved_size` elements.
    pub fn sized_new(reserved_size: u32) -> (array: Self)
        requires
            room_for(false, reserved_size as int),
        ensures
            array.wf(),
            array.parts() == reserved(reserved_size as int, false),
            array@ == Seq::<GPointer>::empty(),
            !array.frees(),
            array.due() == Seq::<GPointer>::empty(),
    {
        Self::ptr_array_new(reserved_size, false, false)
    }

    /// An empty array with room for `reserved_size` elements, whose elements may be freed when
    /// they leave it, and which may keep a null pointer behind them.
    pub fn new_null_terminated(
        reserved_size: u32,
        has_free_func: bool,
        null_terminated: bool,
    ) -> (array: Self)
        requires
            room_for(null_terminated, reserved_size as int),
        ensures
            array.wf(),
            array.parts() == reserved(reserved_size as int, null_terminated),
            array@ == Seq::<GPointer>::empty(),
            array.frees() == has_free_func,
            array.due() == Seq::<GPointer>::empty(),
    {
        Self::ptr_array_new(reserved_size, has_free_func, null_terminated)
    }

    /// Take the list of elements whose freeing is due.
    pub fn take_freed(&mut self) -> (freed: Vec<GPointer>)
        ensures
            freed@ == old(self).due(),
            final(self).due() == Seq::<GPointer>::empty(),
            final(self).parts() == old(self).parts(),
            final(self).frees() == old(self).frees(),
    {
        let mut freed: Vec<GPointer> = Vec::new();
        std::mem::swap(&mut freed, &mut self.freed);
        freed
    }

    /// Whether the array keeps a null pointer behind its elements.
    pub fn is_null_terminated(&self) -> (yes: bool)
        ensures
            yes == self.parts().null_terminated,
    {
        self.null_terminated
    }

    /// The number of elements.
    pub fn len(&self) -> (len: u32)
        requires
            self.wf(),
        ensures
            len == self@.len(),
            len == self.parts().len,
    {
        self.len
    }

    /// Whether there are no elements.
    pub fn is_empty(&self) -> (empty: bool)
        requires
            self.wf(),
        ensures
            empty == (self@.len() == 0),
    {
        self.len() == 0
    }

    /// The buffer, where there is one.
    pub fn pdata(&self) -> (pdata: Option<&[GPointer]>)
        ensures
            pdata is Some == self.parts().buffer is Some,
            pdata matches Some(buffer) ==> buffer@ == self.parts().pointers(),
    {
        match &self.pdata {
            Some(pdata) => Some(pdata.as_slice()),
            None => None,
        }
    }

    /// The element at `index`.
    pub fn index(&self, index: u32) -> (data: GPointer)
        requires
            self.wf(),
            index < self@.len(),
        ensures
            data == self@[index as int],
    {
        self.pdata.as_ref().unwrap()[index as usize]
    }

    /// The element at `index`, where there is one.
    pub fn get(&self, index: u32) -> (data: Option<GPointer>)
        requires
            self.wf(),
        ensures
            data == (if index < self@.len() {
                Some(self@[index as int])
            } else {
                None
            }),
    {
        if index < self.len {
            Some(self.index(index))
        } else {
            None
        }
    }

    /// Add an element at the end.
    pub fn add(&mut self, data: GPointer)
        requires
            old(self).wf(),
            room_for(old(self).parts().null_terminated, old(self)@.len() as int + 1),
        ensures
            final(self).wf(),
            final(self)@ == old(self)@.push(data),
            final(self).parts() == old(self).parts().added(data),
            final(self).frees() == old(self).frees(),
            final(self).due() == old(self).due(),
    {
        let slot: usize = self.len as usize;
        self.maybe_expand(1);
        if let Some(pdata) = self.pdata.as_mut() {
            pdata[slot] = data;
        }
        self.len = self.len + 1;
        self.maybe_null_terminate();
        assert(self@ =~= old(self)@.push(data));
    }

    /// Cut the array to `length` elements, or fill it up with null pointers. Those cut off are
    /// freed.
    pub fn set_size(&mut self, length: i32)
        requires
            old(self).wf(),
            length >= 0,
            length > old(self)@.len() ==> room_for(
                old(self).parts().null_terminated,
                length as int,
            ),
        ensures
            final(self).wf(),
            final(self).frees() == old(self).frees(),
            length > old(self)@.len() ==> {
                &&& final(self)@ == old(self)@ + nulls(length - old(self)@.len())
                &&& final(self).parts() == old(self).parts().filled(length as int)
                &&& final(self).due() == old(self).due()
            },
            length < old(self)@.len() ==> {
                &&& final(self)@ == old(self)@.take(length as int)
                &&& final(self).parts() == old(self).parts().without(
                    length as int,
                    old(self)@.len() - length,
                )
                &&& final(self).due() == old(self).due() + old(self).leaving(
                    old(self)@.skip(length as int),
                )
            },
            length == old(self)@.len() ==> *final(self) == *old(self),
    {
        let length: u32 = length as u32;
        if length > self.len {
            let start: usize = self.len as usize;
            let end: usize = length as usize;
            self.maybe_expand(length - self.len);
            let ghost room = self.parts().pointers();
            if let Some(pdata) = self.pdata.as_mut() {
                let mut i: usize = start;
                while i < end
                    invariant
                        start <= i <= end <= pdata@.len(),
                        pdata@.len() == room.len(),
                        forall|j: int|
                            0 <= j < pdata@.len() ==> #[trigger] pdata@[j] == (if start <= j < i {
                                0
                            } else {
                                room[j]
                            }),
                    decreases end - i,
                {
                    pdata[i] = 0;
                    i = i + 1;
                }
                assert(pdata@ =~= room.take(start as int) + nulls(end - start) + room.skip(
                    end as int,
                ));
            }
            self.len = length;
            self.maybe_null_terminate();
            assert(self@ =~= old(self)@ + nulls(length - old(self)@.len()));
        } else if length < self.len {
            let remove_len: u32 = self.len - length;
            self.remove_range(length, remove_len);
            assert(self@ =~= old(self)@.take(length as int));
            assert(old(self)@.subrange(length as int, length + remove_len) =~= old(self)@.skip(
                length as int,
            ));
        }
    }

    /// Those of some elements that leave which are to be freed: all of them or none.
    pub open spec fn leaving(&self, items: Seq<GPointer>) -> Seq<GPointer> {
        if self.frees() {
            items
        } else {
            Seq::empty()
        }
    }

    /// List elements of the buffer as due to be freed.
    fn free_elements(&mut self, from: usize, to: usize)
        requires
            from <= to <= old(self).parts().pointers().len(),
        ensures
            final(self).parts() == old(self).parts(),
            final(self).frees() == old(self).frees(),
            final(self).due() == old(self).due() + old(self).leaving(
                old(self).parts().pointers().subrange(from as int, to as int),
            ),
    {
        let ghost all = self.parts().pointers();
        assert(self.due() + Seq::<GPointer>::empty() =~= self.due());
        if self.frees {
            let mut i: usize = from;
            assert(all.subrange(from as int, from as int) =~= Seq::<GPointer>::empty());
            while i < to
                invariant
                    from <= i <= to <= all.len(),
                    all == self.parts().pointers(),
                    self.parts() == old(self).parts(),
                    self.frees == old(self).frees,
                    self.freed@ == old(self).freed@ + all.subrange(from as int, i as int),
                decreases to - i,
            {
                if let Some(pdata) = self.pdata.as_ref() {
                    let data: GPointer = pdata[i];
                    self.freed.push(data);
                }
                assert(all.subrange(from as int, i + 1) =~= all.subrange(
                    from as int,
                    i as int,
                ).push(all[i as int]));
                i = i + 1;
            }
        } else {
            assert(old(self).leaving(all.subrange(from as int, to as int)) =~= Seq::<
                GPointer,
            >::empty());
        }
    }

    /// Remove `length` elements from `index` on, and free them.
    pub fn remove_range(&mut self, index: u32, length: u32) -> (array: &mut Self)
        requires
            old(self).wf(),
            index + length <= old(self)@.len(),
        ensures
            *final(self) == *final(array),
            array.wf(),
            array.frees() == old(self).frees(),
            length > 0 ==> {
                &&& array@ == old(self)@.take(index as int) + old(self)@.skip(index + length)
                &&& array.parts() == old(self).parts().without(index as int, length as int)
                &&& array.due() == old(self).due() + old(self).leaving(
                    old(self)@.subrange(index as int, index + length),
                )
            },
            length == 0 ==> *array == *old(self),
    {
        if length == 0 {
            return self;
        }
        let start: usize = index as usize;
        let end: usize = (index + length) as usize;
        let tail_len: usize = (self.len - index - length) as usize;
        self.free_elements(start, end);
        proof {
            let all = self.parts().pointers();
            assert(all.subrange(index as int, index + length) =~= old(self)@.subrange(
                index as int,
                index + length,
            ));
        }
        if let Some(pdata) = self.pdata.as_mut() {
            move_down(pdata, end, start, tail_len);
        }
        self.len = self.len - length;
        self.maybe_null_terminate();
        assert(self@ =~= old(self)@.take(index as int) + old(self)@.skip(index + length));
        self
    }

    fn remove_index_internal(&mut self, index: u32, fast: bool) -> (removed: Option<GPointer>)
        requires
            old(self).wf(),
        ensures
            final(self).wf(),
            final(self).frees() == old(self).frees(),
            index >= old(self)@.len() ==> removed is None && *final(self) == *old(self),
            index < old(self)@.len() ==> {
                let i = index as int;
                &&& removed == Some(old(self)@[i])
                &&& final(self)@ == (if fast {
                    old(self)@.update(i, old(self)@.last()).drop_last()
                } else {
                    old(self)@.remove(i)
                })
                &&& final(self).parts() == (if fast {
                    old(self).parts().without_fast(i)
                } else {
                    old(self).parts().without(i, 1)
                })
                &&& final(self).due() == old(self).due() + old(self).leaving(seq![old(self)@[i]])
            },
    {
        if index >= self.len {
            return None;
        }
        let result: GPointer = self.index(index);
        let start: usize = index as usize;
        let last: usize = self.len as usize - 1;
        self.free_elements(start, start + 1);
        proof {
            let all = self.parts().pointers();
            assert(all.subrange(index as int, index + 1) =~= seq![old(self)@[index as int]]);
        }
        if let Some(pdata) = self.pdata.as_mut() {
            if fast {
                let moved: GPointer = pdata[last];
                pdata[start] = moved;
            } else {
                move_down(pdata, start + 1, start, last - start);
            }
        }
        self.len = self.len - 1;
        self.maybe_null_terminate();
        proof {
            if fast {
                assert(self@ =~= old(self)@.update(index as int, old(self)@.last()).drop_last());
            } else {
                assert(self@ =~= old(self)@.remove(index as int));
            }
        }
        Some(result)
    }

    /// Remove the element at `index`, where there is one, and free it. The others keep their
    /// order.
    pub fn remove_index(&mut self, index: u32) -> (removed: Option<GPointer>)
        requires
            old(self).wf(),
        ensures
            final(self).wf(),
            final(self).frees() == old(self).frees(),
            index >= old(self)@.len() ==> removed is None && *final(self) == *old(self),
            index < old(self)@.len() ==> {
                let i = index as int;
                &&& removed == Some(old(self)@[i])
                &&& final(self)@ == old(self)@.remove(i)
                &&& final(self).parts() == old(self).parts().without(i, 1)
                &&& final(self).due() == old(self).due() + old(self).leaving(seq![old(self)@[i]])
            },
    {
        self.remove_index_internal(index, false)
    }

    /// Remove the element at `index`, where there is one, and free it. The last element takes its
    /// place.
    pub fn remove_index_fast(&mut self, index: u32) -> (removed: Option<GPointer>)
        requires
            old(self).wf(),
        ensures
            final(self).wf(),
            final(self).frees() == old(self).frees(),
            index >= old(self)@.len() ==> removed is None && *final(self) == *old(self),
            index < old(self)@.len() ==> {
                let i = index as int;
                &&& removed == Some(old(self)@[i])
                &&& final(self)@ == old(self)@.update(i, old(self)@.last()).drop_last()
                &&& final(self).parts() == old(self).parts().without_fast(i)
                &&& final(self).due() == old(self).due() + old(self).leaving(seq![old(self)@[i]])
            },
    {
        self.remove_index_internal(index, true)
    }

    /// Remove the first occurrence of an element, and free it. The others keep their order.
    /// Returns whether there was one.
    pub fn remove(&mut self, data: GPointer) -> (removed: bool)
        requires
            old(self).wf(),
        ensures
            final(self).wf(),
            final(self).frees() == old(self).frees(),
            ({
                let i = crate::list::first_index(old(self)@, data, 0);
                &&& removed == (i < old(self)@.len())
                &&& removed ==> {
                    &&& final(self)@ == old(self)@.remove(i)
                    &&& final(self).parts() == old(self).parts().without(i, 1)
                    &&& final(self).due() == old(self).due() + old(self).leaving(seq![data])
                }
                &&& !removed ==> *final(self) == *old(self)
            }),
    {
        let mut i: u32 = 0;
        while i < self.len
            invariant
                self.wf(),
                *self == *old(self),
                i <= self.len,
                crate::list::first_index(self@, data, 0) == crate::list::first_index(
                    self@,
                    data,
                    i as int,
                ),
            decreases self.len - i,
        {
            if self.index(i) == data {
                self.remove_index(i);
                return true;
            }
            i = i + 1;
        }
        false
    }

    /// Sort the elements. The sort is stable.
    pub fn sort<F: Fn(GPointer, GPointer) -> i32>(&mut self, compare_func: &F)
        requires
            old(self).wf(),
            crate::sort::callable(*compare_func),
        ensures
            final(self).wf(),
            forall|ord: spec_fn(GPointer, GPointer) -> int| #[trigger]
                crate::sort::answers_by(*compare_func, ord) ==> final(self)@
                    == crate::sort::merge_sorted(ord, old(self)@),
            final(self)@.to_multiset() == old(self)@.to_multiset(),
            old(self)@.len() > 0 ==> final(self).parts() == old(self).parts().reordered(
                final(self)@,
            ),
            old(self)@.len() == 0 ==> *final(self) == *old(self),
            final(self).frees() == old(self).frees(),
            final(self).due() == old(self).due(),
    {
        let len: usize = self.len as usize;
        if len == 0 {
            return;
        }
        let mut items: Vec<GPointer> = Vec::new();
        let mut i: usize = 0;
        while i < len
            invariant
                self.wf(),
                *self == *old(self),
                len == self.len,
                i <= len,
                items@ == self@.take(i as int),
            decreases len - i,
        {
            let data: GPointer = self.index(i as u32);
            items.push(data);
            assert(self@.take(i + 1) =~= self@.take(i as int).push(data));
            i = i + 1;
        }
        assert(items@ =~= self@);
        let sorted = merge_sort(&items, compare_func);
        proof {
            items@.to_multiset_ensures();
            sorted@.to_multiset_ensures();
        }
        let ghost all = self.parts().pointers();
        if let Some(pdata) = self.pdata.as_mut() {
            let mut k: usize = 0;
            while k < len
                invariant
                    k <= len == sorted@.len(),
                    len <= pdata@.len(),
                    pdata@.len() == all.len(),
                    forall|j: int|
                        0 <= j < pdata@.len() ==> #[trigger] pdata@[j] == (if j < k {
                            sorted@[j]
                        } else {
                            all[j]
                        }),
                decreases len - k,
            {
                pdata[k] = sorted[k];
                k = k + 1;
            }
            assert(pdata@ =~= sorted@ + all.skip(len as int));
        }
        assert(self@ =~= sorted@);
    }

    /// Call `func` with each element and the data so far, in order; the data is what the call
    /// before returned, `user_data` at first. Returns the last data.
    pub fn foreach<U, F: Fn(GPointer, U) -> U>(&self, func: F, user_data: U) -> (result: U)
        requires
            self.wf(),
            forall|item: GPointer, data: U| #[trigger] func.requires((item, data)),
        ensures
            crate::callback::folds(crate::list::visit(func), self@, user_data, result),
    {
        let ghost step = crate::list::visit::<U, F>(func);
        let mut now: U = user_data;
        let mut i: u32 = 0;
        proof {
            crate::callback::lemma_folds_empty::<GPointer, U>(step, user_data);
            assert(self@.take(0) =~= Seq::<GPointer>::empty());
        }
        while i < self.len
            invariant
                self.wf(),
                forall|item: GPointer, data: U| #[trigger] func.requires((item, data)),
                step == crate::list::visit::<U, F>(func),
                i <= self.len,
                crate::callback::folds(step, self@.take(i as int), user_data, now),
            decreases self.len - i,
        {
            let ghost before = now;
            let data: GPointer = self.index(i);
            now = func(data, now);
            proof {
                assert(step(data, before, now));
                crate::callback::lemma_folds_push(
                    step,
                    self@.take(i as int),
                    data,
                    user_data,
                    before,
                    now,
                );
                assert(self@.take(i as int).push(data) =~= self@.take(i + 1));
            }
            i = i + 1;
        }
        assert(self@.take(self.len as int) =~= self@);
        now
    }

    /// Whether `needle` is an element; its first position goes to `index_out`.
    pub fn find(&self, needle: GPointer, index_out: Option<&mut u32>) -> (found: bool)
        requires
            self.wf(),
        ensures
            found == (crate::list::first_index(self@, needle, 0) < self@.len()),
            index_out matches Some(index) ==> *final(index) == (if found {
                crate::list::first_index(self@, needle, 0)
            } else {
                *index as int
            }),
    {
        let mut i: u32 = 0;
        while i < self.len
            invariant
                self.wf(),
                i <= self.len,
                crate::list::first_index(self@, needle, 0) == crate::list::first_index(
                    self@,
                    needle,
                    i as int,
                ),
            decreases self.len - i,
        {
            if self.index(i) == needle {
                if let Some(index) = index_out {
                    *index = i;
                }
                return true;
            }
            i = i + 1;
        }
        false
    }

    /// Whether an element equals `needle`, by `equal_func` or else as a pointer; the first
    /// position of one that does goes to `index_out`.
    pub fn find_with_equal_func<E: Fn(GPointer, GPointer) -> bool>(
        &self,
        needle: GPointer,
        equal_func: Option<E>,
        index_out: Option<&mut u32>,
    ) -> (found: bool)
        requires
            self.wf(),
            equal_func matches Some(equal) ==> forall|a: GPointer, b: GPointer| #[trigger]
                equal.requires((a, b)),
        ensures
            exists|i: int| #[trigger]
                crate::callback::finds(equal_test(equal_func, needle), self@, i) && {
                    &&& found == (i < self@.len())
                    &&& index_out matches Some(index) ==> *final(index) == (if found {
                        i
                    } else {
                        *index as int
                    })
                },
    {
        let ghost holds = equal_test::<E>(equal_func, needle);
        let mut i: u32 = 0;
        while i < self.len
            invariant
                self.wf(),
                equal_func matches Some(equal) ==> forall|a: GPointer, b: GPointer| #[trigger]
                    equal.requires((a, b)),
                holds == equal_test::<E>(equal_func, needle),
                i <= self.len,
                forall|j: int| 0 <= j < i ==> holds(#[trigger] self@[j], false),
            decreases self.len - i,
        {
            let element: GPointer = self.index(i);
            let equals: bool = match &equal_func {
                Some(equal) => equal(element, needle),
                None => element == needle,
            };
            assert(holds(self@[i as int], equals));
            if equals {
                assert(crate::callback::finds(holds, self@, i as int));
                if let Some(index) = index_out {
                    *index = i;
                }
                return true;
            }
            i = i + 1;
        }
        assert(crate::callback::finds(holds, self@, i as int));
        false
    }

    /// Take the buffer out and free the elements, or leave them in it without `free_segment`.
    /// Returns the buffer, or one null pointer in place of a missing one where it is kept, and the
    /// elements whose freeing is due.
    fn take_segment(&mut self, free_segment: bool) -> (out: (Option<Vec<GPointer>>, Vec<GPointer>))
        requires
            old(self).wf(),
        ensures
            final(self).wf(),
            final(self).parts() == old(self).parts().emptied(),
            final(self)@ == Seq::<GPointer>::empty(),
            final(self).frees() == old(self).frees(),
            final(self).due() == Seq::<GPointer>::empty(),
            is_segment(out.0, old(self).parts(), free_segment),
            out.1@ == old(self).due() + (if free_segment {
                old(self).leaving(old(self)@)
            } else {
                Seq::empty()
            }),
    {
        if free_segment {
            let len: usize = self.len as usize;
            self.free_elements(0, len);
            assert(old(self).parts().pointers().subrange(0, len as int) =~= old(self)@);
        } else {
            assert(self.due() + Seq::<GPointer>::empty() =~= self.due());
        }
        let segment = self.pdata.take();
        self.len = 0;
        assert(self@ =~= Seq::<GPointer>::empty());
        let due = self.take_freed();
        if free_segment {
            (None, due)
        } else if segment.is_some() {
            (segment, due)
        } else if self.null_terminated {
            let mut one: Vec<GPointer> = Vec::new();
            one.push(0);
            assert(one@ =~= nulls(1));
            (Some(one), due)
        } else {
            (None, due)
        }
    }

    /// One more reference to a shared array.
    pub fn ref_(heap: &mut RefHeap<Self>, array: &Ref) -> (copy: Ref)
        requires
            old(heap).has(array),
            old(heap).count(array) < u32::MAX,
        ensures
            copy.id() == array.id(),
            final(heap)@ == old(heap)@.insert(
                array.id(),
                Counted {
                    value: old(heap).value(array),
                    count: (old(heap).count(array) + 1) as u32,
                },
            ),
    {
        heap.add_ref(array)
    }

    /// Give up a reference to a shared array. With the last one it ends; returns the elements
    /// whose freeing is due then.
    pub fn unref(heap: &mut RefHeap<Self>, array: Ref) -> (due: Vec<GPointer>)
        requires
            old(heap).has(&array),
            old(heap).count(&array) > 0,
            old(heap).value(&array).wf(),
        ensures
            old(heap).count(&array) == 1 ==> {
                let last = old(heap).value(&array);
                &&& final(heap)@ == old(heap)@.remove(array.id())
                &&& due@ == last.due() + last.leaving(last@)
            },
            old(heap).count(&array) > 1 ==> {
                &&& due@ == Seq::<GPointer>::empty()
                &&& final(heap)@ == old(heap)@.insert(
                    array.id(),
                    Counted {
                        value: old(heap).value(&array),
                        count: (old(heap).count(&array) - 1) as u32,
                    },
                )
            },
    {
        match heap.release(array) {
            Some(value) => {
                let mut last = value;
                let (_, due) = last.take_segment(true);
                due
            },
            None => Vec::new(),
        }
    }

    /// Give up a reference to a shared array. Its elements are freed, or else its buffer is
    /// returned; where there are other references the array stays, without elements. Returns the
    /// buffer and the elements whose freeing is due.
    pub fn free(heap: &mut RefHeap<Self>, array: Ref, free_segment: bool) -> (out: (
        Option<Vec<GPointer>>,
        Vec<GPointer>,
    ))
        requires
            old(heap).has(&array),
            old(heap).count(&array) > 0,
            old(heap).value(&array).wf(),
        ensures
            ({
                let before = old(heap).value(&array);
                &&& is_segment(out.0, before.parts(), free_segment)
                &&& out.1@ == before.due() + (if free_segment {
                    before.leaving(before@)
                } else {
                    Seq::empty()
                })
            }),
            final(heap)@.remove(array.id()) == old(heap)@.remove(array.id()),
            final(heap).has(&array) == (old(heap).count(&array) > 1),
            final(heap).has(&array) ==> {
                let before = old(heap).value(&array);
                let after = final(heap).value(&array);
                &&& final(heap).count(&array) == old(heap).count(&array) - 1
                &&& after.wf()
                &&& after.parts() == before.parts().emptied()
                &&& after@ == Seq::<GPointer>::empty()
                &&& after.frees() == before.frees()
                &&& after.due() == Seq::<GPointer>::empty()
            },
    {
        let out = heap.get_mut(&array).take_segment(free_segment);
        let ghost emptied = *heap;
        let ghost id = array.id();
        assert(emptied@.remove(id) =~= old(heap)@.remove(id));
        heap.release(array);
        assert(heap@.remove(id) =~= emptied@.remove(id));
        out
    }
}

/// `equal_func`, or else equality of pointers, may find an element equal to `needle`, or not.
pub open spec fn equal_test<E: Fn(GPointer, GPointer) -> bool>(
    equal_func: Option<E>,
    needle: GPointer,
) -> spec_fn(GPointer, bool) -> bool {
    |item: GPointer, holds: bool|
        match equal_func {
            Some(equal) => equal.ensures((item, needle), holds),
            None => holds == (item == needle),
        }
}

/// What is handed out of an array that is freed: its buffer, or one null pointer in place of a
/// missing one where it is kept; nothing with `free_segment`.
pub open spec fn is_segment(
    segment: Option<Vec<GPointer>>,
    parts: PtrArrayParts,
    free_segment: bool,
) -> bool {
    if free_segment || (parts.buffer is None && !parts.null_terminated) {
        segment is None
    } else {
        &&& segment is Some
        &&& segment->0@ == (match parts.buffer {
            Some(buffer) => buffer,
            None => nulls(1),
        })
    }
}

impl Default for PtrArray {
    fn default() -> (array: Self)
        ensures
            array.wf(),
            array.parts() == reserved(0, false),
            array@ == Seq::<GPointer>::empty(),
            !array.frees(),
            array.due() == Seq::<GPointer>::empty(),
    {
        Self::new()
    }
}

/// Removing an element in either way takes out that one and no other.
pub proof fn law_remove_takes_one(items: Seq<GPointer>, index: int)
    requires
        0 <= index < items.len(),
    ensures
        items.remove(index).to_multiset() == items.to_multiset().remove(items[index]),
        items.update(index, items.last()).drop_last().to_multiset() == items.to_multiset().remove(
            items[index],
        ),
{
    broadcast use vstd::multiset::group_multiset_axioms;

    items.to_multiset_ensures();
    let last = items.len() - 1;
    let fast = items.update(index, items.last()).drop_last();
    if index == last {
        assert(fast =~= items.remove(index));
    } else {
        let a = items.take(index);
        let b = items.subrange(index + 1, last);
        let x = seq![items.last()];
        assert(items.remove(index) =~= a + (b + x));
        assert(fast =~= a + (x + b));
        vstd::seq_lib::lemma_multiset_commutative(a, b + x);
        vstd::seq_lib::lemma_multiset_commutative(a, x + b);
        vstd::seq_lib::lemma_multiset_commutative(b, x);
        vstd::seq_lib::lemma_multiset_commutative(x, b);
        assert((b + x).to_multiset() =~= (x + b).to_multiset());
    }
}

/// What is allocated is enough, and never less than the least; past that, it is under twice what
/// is wanted.
pub proof fn law_allocation(want: int)
    requires
        0 < want,
    ensures
        want <= allocation(want),
        MIN_ARRAY_CAPACITY <= allocation(want),
        allocation(want) < 2 * want || allocation(want) == MIN_ARRAY_CAPACITY,
{
    let size = pointer_size();
    assert(size == 4 || size == 8);
    assert(want * size > 0) by (nonlinear_arith)
        requires
            want > 0,
            size > 0,
    ;
    crate::growth::law_nearest_power(want * size);
}

/// Room for more elements changes no pointer: those that were there stay, the new ones are null,
/// and there are enough of them.
pub proof fn law_expanded(parts: PtrArrayParts, n: int)
    requires
        0 <= parts.len,
        0 < n,
    ensures
        ({
            let after = parts.expanded(n);
            let have = parts.pointers().len() as int;
            &&& after.len == parts.len
            &&& after.null_terminated == parts.null_terminated
            &&& after.pointers().len() >= have
            &&& after.pointers().take(have) == parts.pointers()
            &&& after.pointers().len() >= parts.len + n
            &&& parts.null_terminated ==> after.pointers().len() > parts.len + n
            &&& forall|i: int|
                have <= i < after.pointers().len() ==> #[trigger] after.pointers()[i] == 0
            &&& parts.len + n < have ==> after == parts
        }),
{
    let after = parts.expanded(n);
    let have = parts.pointers().len() as int;
    law_allocation(parts.wanted(n));
    assert(after.pointers().take(have) =~= parts.pointers());
}

/// What stands behind the elements of an array that keeps a null pointer there is null after every
/// change, and the elements are as the change leaves them.
pub proof fn law_changed_parts(parts: PtrArrayParts, data: GPointer, length: int, index: int, n: int)
    requires
        0 <= parts.len,
        parts.buffer is Some,
        parts.wanted(0) <= parts.pointers().len(),
        parts.len < length,
        0 <= index,
        0 < n,
        index + n <= parts.len,
    ensures
        parts.added(data).items() == parts.items().push(data),
        parts.filled(length).items() == parts.items() + nulls(length - parts.len),
        parts.without(index, n).items() == parts.items().take(index) + parts.items().skip(
            index + n,
        ),
        parts.without_fast(index).items() == parts.items().update(
            index,
            parts.items().last(),
        ).drop_last(),
        parts.null_terminated ==> {
            &&& parts.added(data).pointers()[parts.len + 1] == 0
            &&& parts.filled(length).pointers()[length] == 0
            &&& parts.without(index, n).pointers()[parts.len - n] == 0
            &&& parts.without_fast(index).pointers()[parts.len - 1] == 0
        },
        parts.added(data).len == parts.len + 1,
        parts.filled(length).len == length,
        parts.without(index, n).len == parts.len - n,
        parts.without_fast(index).len == parts.len - 1,
{
    law_expanded(parts, 1);
    law_expanded(parts, length - parts.len);
    assert(parts.expanded(1).pointers().take(parts.pointers().len() as int) == parts.pointers());
    assert(parts.expanded(length - parts.len).pointers().take(parts.pointers().len() as int)
        == parts.pointers());
    assert forall|i: int| 0 <= i < parts.pointers().len() implies parts.expanded(1).pointers()[i]
        == #[trigger] parts.pointers()[i] && parts.expanded(length - parts.len).pointers()[i]
        == parts.pointers()[i] by {
        assert(parts.expanded(1).pointers().take(parts.pointers().len() as int)[i]
            == parts.pointers()[i]);
        assert(parts.expanded(length - parts.len).pointers().take(
            parts.pointers().len() as int,
        )[i] == parts.pointers()[i]);
    }
    assert(parts.added(data).items() =~= parts.items().push(data));
    assert(parts.filled(length).items() =~= parts.items() + nulls(length - parts.len));
    assert(parts.without(index, n).items() =~= parts.items().take(index) + parts.items().skip(
        index + n,
    ));
    assert(parts.without_fast(index).items() =~= parts.items().update(
        index,
        parts.items().last(),
    ).drop_last());
}

/// Another order of the elements leaves the pointers behind them where they are, and an array
/// without a buffer has no elements.
pub proof fn law_reordered_parts(parts: PtrArrayParts, items: Seq<GPointer>)
    requires
        0 <= parts.len <= parts.pointers().len(),
        items.len() == parts.len,
    ensures
        parts.reordered(items).items() == items,
        parts.reordered(items).pointers().len() == parts.pointers().len(),
        forall|i: int|
            parts.len <= i < parts.pointers().len() ==> #[trigger] parts.reordered(
                items,
            ).pointers()[i] == parts.pointers()[i],
        parts.emptied().items() == Seq::<GPointer>::empty(),
        parts.emptied().pointers() == Seq::<GPointer>::empty(),
        parts.emptied().null_terminated == parts.null_terminated,
{
    assert(parts.reordered(items).items() =~= items);
    assert(parts.emptied().items() =~= Seq::<GPointer>::empty());
}

/// Elements that leave an array are all due to be freed, in order, where it frees them, and none
/// where it does not.
pub proof fn law_leaving(array: PtrArray, items: Seq<GPointer>)
    ensures
        array.frees() ==> array.leaving(items) == items,
        !array.frees() ==> array.leaving(items).len() == 0,
{
}

/// [`PtrArray::find_with_equal_func`] finds the first element that the function, asked about it and
/// the needle, calls equal, and none only where it calls none equal; without a function it finds
/// the first pointer that is the needle.
pub proof fn law_find<E: Fn(GPointer, GPointer) -> bool>(
    items: Seq<GPointer>,
    equal_func: Option<E>,
    needle: GPointer,
    n: int,
)
    requires
        crate::callback::finds(equal_test(equal_func, needle), items, n),
    ensures
        0 <= n <= items.len(),
        equal_func matches Some(equal) ==> {
            &&& n < items.len() ==> equal.ensures((items[n], needle), true)
            &&& forall|i: int| 0 <= i < n ==> equal.ensures((#[trigger] items[i], needle), false)
        },
        equal_func is None ==> {
            &&& n < items.len() ==> items[n] == needle
            &&& forall|i: int| 0 <= i < n ==> #[trigger] items[i] != needle
        },
{
    let holds = equal_test::<E>(equal_func, needle);
    assert forall|i: int| 0 <= i < n implies holds(#[trigger] items[i], false) by {}
}

/// What is handed out of an array that is freed: nothing where its elements are freed with it; else
/// its buffer with all elements in front, which ends in a null pointer where one is kept.
pub proof fn law_segment(segment: Option<Vec<GPointer>>, array: PtrArray, free_segment: bool)
    requires
        array.wf(),
        is_segment(segment, array.parts(), free_segment),
    ensures
        free_segment ==> segment is None,
        !free_segment && array@.len() > 0 ==> segment is Some,
        segment matches Some(buffer) ==> {
            &&& buffer@.len() >= array@.len()
            &&& buffer@.take(array@.len() as int) == array@
            &&& array.parts().null_terminated ==> buffer@.len() > array@.len()
                && buffer@[array@.len() as int] == 0
        },
        !free_segment && array.parts().null_terminated ==> segment is Some,
{
    if let Some(buffer) = segment {
        assert(buffer@.take(array@.len() as int) =~= array@);
    }
}

} // verus!
