//! Growable arrays.

use vstd::prelude::*;
use crate::growth::nearest_pow;
use crate::refcount::{Counted, Ref, RefHeap};
use crate::UInt;

verus! {

/// The least number of bytes that is allocated.
pub const MIN_ARRAY_SIZE: usize = 16;

/// A growable array of elements of one size.
pub struct GArray {
    data: Vec<u8>,
    len: UInt,
    elt_size: UInt,
    zero_terminated: bool,
    clear: bool,
}

/// Bytes as elements of one size.
pub open spec fn elements(bytes: Seq<u8>, size: int, n: int) -> Seq<Seq<u8>> {
    Seq::new(n as nat, |i: int| bytes.subrange(i * size, (i + 1) * size))
}

/// Zero bytes.
pub open spec fn zeros(n: int) -> Seq<u8> {
    Seq::new(n as nat, |i: int| 0u8)
}

/// Elements of zero bytes.
pub open spec fn zero_elements(size: int, n: int) -> Seq<Seq<u8>> {
    Seq::new(n as nat, |i: int| zeros(size))
}

/// An array can have `n` elements: with its terminator they can be counted, and take up at most
/// half of all addresses.
pub open spec fn fits(size: int, zero_terminated: bool, n: int) -> bool {
    let all = if zero_terminated {
        n + 1
    } else {
        n
    };
    all <= u32::MAX && all * size <= usize::MAX / 2
}

/// The bytes that are allocated where `want` are wanted.
pub open spec fn allocation(want: int) -> int {
    let near = crate::growth::nearest_power(want);
    if near < MIN_ARRAY_SIZE {
        MIN_ARRAY_SIZE as int
    } else {
        near
    }
}

/// The bytes that are allocated for a new array that is to have room for `n` elements, with its
/// terminator.
pub open spec fn reserved(size: int, zero_terminated: bool, n: int) -> int {
    let all = if zero_terminated {
        n + 1
    } else {
        n
    };
    if all == 0 {
        0
    } else {
        allocation(all * size)
    }
}

proof fn lemma_bounds(size: int, i: int, n: int)
    requires
        0 < size,
        0 <= i < n,
    ensures
        0 <= i * size,
        i * size + size == (i + 1) * size,
        (i + 1) * size <= n * size,
{
    assert(0 <= i * size) by (nonlinear_arith)
        requires
            0 < size,
            0 <= i,
    ;
    assert(i * size + size == (i + 1) * size) by (nonlinear_arith);
    assert((i + 1) * size <= n * size) by (nonlinear_arith)
        requires
            0 < size,
            i + 1 <= n,
    ;
}

proof fn lemma_bytes_grow(n: int, m: int, size: int)
    requires
        0 < size,
        0 <= n <= m,
    ensures
        0 <= n * size <= m * size,
        m * size - n * size == (m - n) * size,
{
    assert(0 <= n * size <= m * size) by (nonlinear_arith)
        requires
            0 < size,
            0 <= n <= m,
    ;
    assert(m * size - n * size == (m - n) * size) by (nonlinear_arith);
}

/// The elements of two parts are the elements of the whole.
pub proof fn lemma_elements_add(a: Seq<u8>, b: Seq<u8>, size: int, n: int, m: int)
    requires
        0 < size,
        0 <= n,
        0 <= m,
        a.len() == n * size,
        m * size <= b.len(),
    ensures
        elements(a + b, size, n + m) == elements(a, size, n) + elements(b, size, m),
{
    let all = elements(a + b, size, n + m);
    let parts = elements(a, size, n) + elements(b, size, m);
    assert forall|i: int| 0 <= i < n + m implies all[i] == parts[i] by {
        if i < n {
            lemma_bounds(size, i, n);
            assert((a + b).subrange(i * size, (i + 1) * size) =~= a.subrange(
                i * size,
                (i + 1) * size,
            ));
        } else {
            lemma_bounds(size, i - n, m);
            assert(i * size == n * size + (i - n) * size) by (nonlinear_arith);
            assert((i + 1) * size == n * size + (i - n + 1) * size) by (nonlinear_arith);
            assert((a + b).subrange(i * size, (i + 1) * size) =~= b.subrange(
                (i - n) * size,
                (i - n + 1) * size,
            ));
        }
    }
    assert(all =~= parts);
}

/// The first elements.
pub proof fn lemma_elements_take(a: Seq<u8>, size: int, n: int, k: int)
    requires
        0 < size,
        0 <= k <= n,
        n * size <= a.len(),
    ensures
        0 <= k * size <= n * size,
        elements(a.take(k * size), size, k) == elements(a, size, n).take(k),
        elements(a, size, k) == elements(a, size, n).take(k),
{
    assert(0 <= k * size <= n * size) by (nonlinear_arith)
        requires
            0 < size,
            0 <= k <= n,
    ;
    let part = elements(a.take(k * size), size, k);
    assert forall|i: int| 0 <= i < k implies part[i] == elements(a, size, n)[i] by {
        lemma_bounds(size, i, k);
        assert(a.take(k * size).subrange(i * size, (i + 1) * size) =~= a.subrange(
            i * size,
            (i + 1) * size,
        ));
    }
    assert(part =~= elements(a, size, n).take(k));
    assert(elements(a, size, k) =~= elements(a, size, n).take(k));
}

/// The elements from `k` on.
pub proof fn lemma_elements_skip(a: Seq<u8>, size: int, n: int, k: int)
    requires
        0 < size,
        0 <= k <= n,
        n * size <= a.len(),
    ensures
        0 <= k * size <= n * size,
        (n - k) * size == n * size - k * size,
        elements(a.skip(k * size), size, n - k) == elements(a, size, n).skip(k),
{
    assert(0 <= k * size <= n * size) by (nonlinear_arith)
        requires
            0 < size,
            0 <= k <= n,
    ;
    assert((n - k) * size == n * size - k * size) by (nonlinear_arith);
    let part = elements(a.skip(k * size), size, n - k);
    assert forall|i: int| 0 <= i < n - k implies part[i] == elements(a, size, n)[i + k] by {
        lemma_bounds(size, i, n - k);
        assert((i + k) * size == i * size + k * size) by (nonlinear_arith);
        assert((i + k + 1) * size == (i + 1) * size + k * size) by (nonlinear_arith);
        assert(a.skip(k * size).subrange(i * size, (i + 1) * size) =~= a.subrange(
            (i + k) * size,
            (i + k + 1) * size,
        ));
    }
    assert(part =~= elements(a, size, n).skip(k));
}

/// Zero bytes are zero elements.
pub proof fn lemma_elements_zero(size: int, n: int)
    requires
        0 < size,
        0 <= n,
    ensures
        0 <= n * size,
        elements(zeros(n * size), size, n) == zero_elements(size, n),
{
    assert(0 <= n * size) by (nonlinear_arith)
        requires
            0 < size,
            0 <= n,
    ;
    let all = elements(zeros(n * size), size, n);
    assert forall|i: int| 0 <= i < n implies all[i] == zeros(size) by {
        lemma_bounds(size, i, n);
        assert(zeros(n * size).subrange(i * size, (i + 1) * size) =~= zeros(size));
    }
    assert(all =~= zero_elements(size, n));
}

/// Write the first `n` bytes of `source` at `at`.
fn write(data: &mut Vec<u8>, at: usize, source: &[u8], n: usize)
    requires
        at + n <= old(data)@.len(),
        n <= source@.len(),
    ensures
        final(data)@ == old(data)@.take(at as int) + source@.take(n as int) + old(data)@.skip(at + n),
{
    let size: usize = data.len();
    let mut i: usize = 0;
    while i < n
        invariant
            i <= n,
            at + n <= data@.len(),
            n <= source@.len(),
            data@.len() == old(data)@.len() == size,
            forall|j: int|
                0 <= j < data@.len() ==> #[trigger] data@[j] == (if at <= j < at + i {
                    source@[j - at]
                } else {
                    old(data)@[j]
                }),
        decreases n - i,
    {
        data[at + i] = source[i];
        i = i + 1;
    }
    assert(data@ =~= old(data)@.take(at as int) + source@.take(n as int) + old(data)@.skip(at + n));
}

/// The first `n` bytes.
fn copied(data: &Vec<u8>, n: usize) -> (copy: Vec<u8>)
    requires
        n <= data@.len(),
    ensures
        copy@ == data@.take(n as int),
{
    let mut copy: Vec<u8> = Vec::new();
    let mut i: usize = 0;
    while i < n
        invariant
            i <= n <= data@.len(),
            copy@ == data@.take(i as int),
        decreases n - i,
    {
        copy.push(data[i]);
        assert(data@.take(i + 1) =~= data@.take(i as int).push(data@[i as int]));
        i = i + 1;
    }
    copy
}

/// Move `n` bytes from `from` up to `to`.
fn move_up(data: &mut Vec<u8>, from: usize, to: usize, n: usize)
    requires
        from <= to,
        to + n <= old(data)@.len(),
    ensures
        final(data)@ == old(data)@.take(to as int) + old(data)@.subrange(from as int, from + n)
            + old(data)@.skip(to + n),
{
    let size: usize = data.len();
    let mut i: usize = n;
    while i > 0
        invariant
            i <= n,
            from <= to,
            to + n <= data@.len(),
            data@.len() == old(data)@.len() == size,
            forall|j: int|
                0 <= j < data@.len() ==> #[trigger] data@[j] == (if to + i <= j < to + n {
                    old(data)@[j - to + from]
                } else {
                    old(data)@[j]
                }),
        decreases i,
    {
        i = i - 1;
        let byte: u8 = data[from + i];
        data[to + i] = byte;
    }
    assert(data@ =~= old(data)@.take(to as int) + old(data)@.subrange(from as int, from + n) + old(
        data,
    )@.skip(to + n));
}

/// Move `n` items from `from` down to `to`.
pub(crate) fn move_down<T: Copy>(data: &mut Vec<T>, from: usize, to: usize, n: usize)
    requires
        to <= from,
        from + n <= old(data)@.len(),
    ensures
        final(data)@ == old(data)@.take(to as int) + old(data)@.subrange(from as int, from + n)
            + old(data)@.skip(to + n),
{
    let size: usize = data.len();
    let mut i: usize = 0;
    while i < n
        invariant
            i <= n,
            to <= from,
            from + n <= data@.len(),
            data@.len() == old(data)@.len() == size,
            forall|j: int|
                0 <= j < data@.len() ==> #[trigger] data@[j] == (if to <= j < to + i {
                    old(data)@[j - to + from]
                } else {
                    old(data)@[j]
                }),
        decreases n - i,
    {
        let item: T = data[from + i];
        data[to + i] = item;
        i = i + 1;
    }
    assert(data@ =~= old(data)@.take(to as int) + old(data)@.subrange(from as int, from + n) + old(
        data,
    )@.skip(to + n));
}

/// The number of four bytes, the least significant first.
pub open spec fn signed_value(bytes: Seq<u8>) -> int {
    let value = bytes[0] + 256 * bytes[1] + 65536 * bytes[2] + 16777216 * bytes[3];
    if value < 2147483648 {
        value
    } else {
        value - 4294967296
    }
}

/// A machine reads four bytes as `value`, in one of the two byte orders.
pub open spec fn reads_as(bytes: Seq<u8>, value: int) -> bool {
    value == signed_value(bytes) || value == signed_value(bytes.reverse())
}

/// The first four bytes of an element; zero where it has fewer.
pub open spec fn first_four(element: Seq<u8>) -> Seq<u8> {
    Seq::new(
        4,
        |i: int|
            if i < element.len() {
                element[i]
            } else {
                0
            },
    )
}

/// The bytes of an array's elements, with those of the zero element where one stands behind them.
pub open spec fn is_segment(bytes: Seq<u8>, array: GArray) -> bool {
    let used = array@.len() * array.size();
    &&& elements(bytes, array.size(), array@.len() as int) == array@
    &&& if array.terminated() {
        bytes.len() == used + array.size() && bytes.skip(used) == zeros(array.size())
    } else {
        bytes.len() == used
    }
}

/// `i32::from_ne_bytes`: the number whose bytes in memory are `bytes`. Machines differ in which of
/// the bytes is the least significant; the number is read from the first to the last or from the
/// last to the first, and which of the two is left open.
#[verifier::external_body]
pub(crate) fn i32_from_ne_bytes(bytes: [u8; 4]) -> (value: i32)
    ensures
        reads_as(bytes@, value as int),
{
    i32::from_ne_bytes(bytes)
}

/// `value` is what `i32::from_ne_bytes` gave for these four bytes, in this order.
pub open(crate) spec fn native_number(bytes: Seq<u8>, value: i32) -> bool {
    exists|given: [u8; 4]| #[trigger]
        call_ensures(i32_from_ne_bytes, (given,), value) && given@ == bytes
}

impl View for GArray {
    type V = Seq<Seq<u8>>;

    /// The elements, each with its bytes.
    closed spec fn view(&self) -> Seq<Seq<u8>> {
        elements(self.data@, self.elt_size as int, self.len as int)
    }
}

impl GArray {
    /// The size of an element in bytes.
    pub closed spec fn size(&self) -> int {
        self.elt_size as int
    }

    /// A zero element is kept behind the elements.
    pub closed spec fn zero_terminated(&self) -> bool {
        self.zero_terminated
    }

    /// New elements are asked to be zero.
    pub closed spec fn clears(&self) -> bool {
        self.clear
    }

    /// A zero element stands behind the elements. An array that keeps one has lost it when its
    /// bytes were freed under other references.
    pub closed spec fn terminated(&self) -> bool {
        self.zero_terminated && self.data@.len() > 0
    }

    /// The bytes that are allocated for elements.
    pub closed spec fn room(&self) -> int {
        self.data@.len() as int
    }

    /// Two arrays are of one make.
    pub open spec fn same_make(&self, other: &GArray) -> bool {
        &&& self.size() == other.size()
        &&& self.zero_terminated() == other.zero_terminated()
        &&& self.clears() == other.clears()
    }

    /// The bytes of the elements.
    spec fn used(&self) -> int {
        self.len * self.elt_size
    }

    /// The invariant of an array. What stands behind the elements is zero.
    pub closed spec fn wf(&self) -> bool {
        &&& self.elt_size > 0
        &&& fits(self.elt_size as int, self.zero_terminated, self.len as int)
        &&& self.used() <= self.data@.len()
        &&& forall|i: int| self.used() <= i < self.data@.len() ==> #[trigger] self.data@[i] == 0
        &&& self.terminated() ==> self.used() + self.elt_size <= self.data@.len()
        &&& self.zero_terminated && !self.terminated() ==> self.len == 0
    }

    /// The number of bytes of elements.
    fn elt_byte_len(&self, n_elements: UInt) -> (bytes: usize)
        requires
            n_elements * self.elt_size <= usize::MAX,
        ensures
            bytes == n_elements * self.elt_size,
    {
        assert(n_elements * self.elt_size == self.elt_size * n_elements) by (nonlinear_arith);
        self.elt_size as usize * n_elements as usize
    }

    /// Make room for more elements.
    fn maybe_expand(&mut self, len: UInt)
        requires
            old(self).wf(),
            fits(old(self).size(), old(self).zero_terminated(), old(self)@.len() + len),
        ensures
            final(self).wf(),
            final(self).same_make(old(self)),
            final(self).len == old(self).len,
            final(self)@ == old(self)@,
            final(self).data@.take(final(self).used()) == old(self).data@.take(old(self).used()),
            (old(self).len + len + (if old(self).zero_terminated {
                1int
            } else {
                0int
            })) * old(self).elt_size <= final(self).data@.len(),
            old(self).data@.len() <= final(self).data@.len(),
            ({
                let want = (old(self).len + len + (if old(self).zero_terminated {
                    1int
                } else {
                    0int
                })) * old(self).elt_size;
                final(self).room() == (if want > old(self).room() {
                    allocation(want)
                } else {
                    old(self).room()
                })
            }),
    {
        let want_len: UInt = if self.zero_terminated {
            self.len + len + 1
        } else {
            self.len + len
        };
        let want_bytes: usize = self.elt_byte_len(want_len);
        if want_bytes > self.data.len() {
            let near: usize = nearest_pow(want_bytes);
            let want_alloc: usize = if near < MIN_ARRAY_SIZE {
                MIN_ARRAY_SIZE
            } else {
                near
            };
            self.grow(want_alloc);
        }
        proof {
            lemma_bytes_grow(0, self.len as int, self.elt_size as int);
            lemma_bytes_grow(self.len as int, want_len as int, self.elt_size as int);
            if self.zero_terminated {
                lemma_bytes_grow(self.len + 1, want_len as int, self.elt_size as int);
                lemma_bounds(self.elt_size as int, self.len as int, self.len + 1);
            }
            assert(self.data@.take(self.used()) =~= old(self).data@.take(self.used()));
        }
    }

    /// Add zero bytes behind the elements.
    fn grow(&mut self, bytes: usize)
        requires
            old(self).elt_size > 0,
            old(self).used() <= old(self).data@.len() <= bytes,
            forall|i: int|
                old(self).used() <= i < old(self).data@.len() ==> #[trigger] old(self).data@[i]
                    == 0,
        ensures
            final(self).data@ == old(self).data@ + zeros(bytes - old(self).data@.len()),
            final(self).len == old(self).len,
            final(self).elt_size == old(self).elt_size,
            final(self).zero_terminated == old(self).zero_terminated,
            final(self).clear == old(self).clear,
            final(self)@ == old(self)@,
    {
        self.data.resize(bytes, 0);
        proof {
            let n = old(self).data@.len();
            assert(self.data@.take(n as int) =~= old(self).data@);
            assert(self.data@ =~= old(self).data@ + zeros(bytes - n));
            let used = self.used();
            lemma_bytes_grow(0, self.len as int, self.elt_size as int);
            assert(old(self).data@.take(used) =~= self.data@.take(used));
            lemma_elements_same(old(self).data@, self.data@, self.elt_size as int, self.len as int);
        }
    }

    /// See to the zero element behind the elements.
    fn zero_terminate(&mut self)
        requires
            old(self).elt_size > 0,
            fits(old(self).elt_size as int, old(self).zero_terminated, old(self).len as int),
            old(self).used() <= old(self).data@.len(),
            forall|i: int|
                old(self).used() <= i < old(self).data@.len() ==> #[trigger] old(self).data@[i]
                    == 0,
        ensures
            final(self).wf(),
            final(self).same_make(old(self)),
            final(self)@ == old(self)@,
            final(self).len == old(self).len,
            final(self).terminated() == old(self).zero_terminated,
            !old(self).zero_terminated || old(self).used() + old(self).elt_size
                <= old(self).data@.len() ==> final(self).data@ == old(self).data@,
    {
        if self.zero_terminated {
            proof {
                lemma_bounds(self.elt_size as int, self.len as int, self.len + 1);
            }
            let end: usize = self.elt_byte_len(self.len + 1);
            if self.data.len() < end {
                self.grow(end);
            }
        }
    }

    /// Put elements in before the one at `index`.
    fn splice_in(&mut self, index: UInt, source: &[u8], n: UInt)
        requires
            old(self).wf(),
            index <= old(self).len,
            fits(old(self).size(), old(self).zero_terminated(), old(self)@.len() + n),
            n * old(self).size() <= source@.len(),
        ensures
            final(self).wf(),
            final(self).same_make(old(self)),
            final(self).terminated() == old(self).zero_terminated,
            final(self)@ == old(self)@.take(index as int) + elements(
                source@,
                old(self).size(),
                n as int,
            ) + old(self)@.skip(index as int),
    {
        let ghost size = self.elt_size as int;
        let ghost used = self.used();
        let ghost before = self.data@;
        proof {
            lemma_bytes_grow(0, index as int, size);
            lemma_bytes_grow(index as int, self.len as int, size);
            lemma_bytes_grow(self.len as int, self.len + n, size);
            lemma_bytes_grow(0, n as int, size);
            if self.zero_terminated {
                lemma_bytes_grow(self.len + n, self.len + n + 1, size);
            }
        }
        self.maybe_expand(n);
        let ghost room = self.data@;
        let index_bytes: usize = self.elt_byte_len(index);
        let insert_bytes: usize = self.elt_byte_len(n);
        let tail_bytes: usize = self.elt_byte_len(self.len - index);
        move_up(&mut self.data, index_bytes, index_bytes + insert_bytes, tail_bytes);
        write(&mut self.data, index_bytes, source, insert_bytes);
        self.len = self.len + n;
        proof {
            let ib = index_bytes as int;
            let nb = insert_bytes as int;
            assert(room.take(used) == before.take(used));
            assert(self.used() == used + nb);
            assert forall|i: int| self.used() <= i < self.data@.len() implies #[trigger] self.data@[i]
                == 0 by {
                assert(self.data@[i] == room[i]);
            }
            assert(self.data@.take(used + nb) =~= room.take(ib) + source@.take(nb) + room.subrange(
                ib,
                used,
            ));
            lemma_elements_insert(
                room,
                source@,
                self.data@,
                size,
                old(self).len as int,
                index as int,
                n as int,
            );
        }
        self.zero_terminate();
    }

    /// Take `n` elements out from `index` on.
    fn splice_out(&mut self, index: UInt, n: UInt)
        requires
            old(self).wf(),
            index + n <= old(self).len,
            n > 0,
        ensures
            final(self).wf(),
            final(self).same_make(old(self)),
            final(self).terminated() == old(self).zero_terminated,
            final(self)@ == old(self)@.take(index as int) + old(self)@.skip(index + n),
    {
        let ghost size = self.elt_size as int;
        let ghost used = self.used();
        let ghost before = self.data@;
        proof {
            lemma_bytes_grow(0, index as int, size);
            lemma_bytes_grow(index as int, index + n, size);
            lemma_bytes_grow(index + n, self.len as int, size);
            lemma_bytes_grow(index as int, self.len - n, size);
            lemma_bytes_grow(self.len as int, self.len + 1, size);
            lemma_bytes_grow(self.len - n + 1, self.len + 1, size);
        }
        let to: usize = self.elt_byte_len(index);
        let from: usize = self.elt_byte_len(index + n);
        let tail_bytes: usize = self.elt_byte_len(self.len - index - n);
        move_down(&mut self.data, from, to, tail_bytes);
        self.len = self.len - n;
        let byte_len: usize = self.elt_byte_len(self.len);
        self.data.truncate(byte_len);
        proof {
            assert(byte_len == to + tail_bytes);
            assert(self.data@ =~= before.take(to as int) + before.subrange(from as int, used));
            lemma_elements_remove(
                before,
                self.data@,
                size,
                old(self).len as int,
                index as int,
                n as int,
            );
        }
        self.zero_terminate();
    }

    /// An empty array.
    pub fn new(zero_terminated: bool, clear: bool, element_size: UInt) -> (array: Self)
        requires
            element_size > 0,
            fits(element_size as int, zero_terminated, 0),
        ensures
            array.wf(),
            array@ == Seq::<Seq<u8>>::empty(),
            array.size() == element_size,
            array.zero_terminated() == zero_terminated,
            array.clears() == clear,
            array.terminated() == zero_terminated,
            array.room() == reserved(element_size as int, zero_terminated, 0),
    {
        Self::sized_new(zero_terminated, clear, element_size, 0)
    }

    /// An empty array with room for `reserved_size` elements.
    pub fn sized_new(
        zero_terminated: bool,
        clear: bool,
        element_size: UInt,
        reserved_size: UInt,
    ) -> (array: Self)
        requires
            element_size > 0,
            fits(element_size as int, zero_terminated, reserved_size as int),
        ensures
            array.wf(),
            array@ == Seq::<Seq<u8>>::empty(),
            array.size() == element_size,
            array.zero_terminated() == zero_terminated,
            array.clears() == clear,
            array.terminated() == zero_terminated,
            array.room() == reserved(element_size as int, zero_terminated, reserved_size as int),
            array.room() >= reserved_size * element_size,
    {
        let mut array = GArray {
            data: Vec::new(),
            len: 0,
            elt_size: element_size,
            zero_terminated,
            clear,
        };
        proof {
            lemma_bytes_grow(0, reserved_size as int, element_size as int);
            lemma_bytes_grow(1, reserved_size + 1, element_size as int);
            lemma_bytes_grow(reserved_size as int, reserved_size + 1, element_size as int);
            if reserved_size > 0 {
                lemma_bytes_grow(1, reserved_size as int, element_size as int);
            }
        }
        if zero_terminated || reserved_size != 0 {
            array.maybe_expand(reserved_size);
            array.zero_terminate();
        }
        assert(array@ =~= Seq::<Seq<u8>>::empty());
        array
    }

    /// The number of elements.
    pub fn len(&self) -> (len: UInt)
        ensures
            len == self@.len(),
    {
        self.len
    }

    /// Whether there are no elements.
    pub fn is_empty(&self) -> (empty: bool)
        ensures
            empty == (self@.len() == 0),
    {
        self.len == 0
    }

    /// The size of an element in bytes.
    pub fn element_size(&self) -> (size: UInt)
        ensures
            size == self.size(),
    {
        self.elt_size
    }

    /// The bytes of the elements.
    pub fn data(&self) -> (data: Vec<u8>)
        requires
            self.wf(),
        ensures
            data@.len() == self@.len() * self.size(),
            elements(data@, self.size(), self@.len() as int) == self@,
    {
        proof {
            self.lemma_used();
        }
        let byte_len: usize = self.elt_byte_len(self.len);
        let data = copied(&self.data, byte_len);
        proof {
            lemma_elements_take(
                self.data@,
                self.elt_size as int,
                self.len as int,
                self.len as int,
            );
            assert(self@.take(self.len as int) =~= self@);
        }
        data
    }

    /// The bytes of the elements can be counted.
    proof fn lemma_used(&self)
        requires
            self.wf(),
        ensures
            0 <= self.used() <= usize::MAX / 2,
            self.zero_terminated ==> self.used() + self.elt_size <= usize::MAX / 2,
    {
        lemma_bytes_grow(0, self.len as int, self.elt_size as int);
        lemma_bounds(self.elt_size as int, self.len as int, self.len + 1);
    }

    /// A copy of the array.
    pub fn copy(&self) -> (copy: Self)
        requires
            self.wf(),
        ensures
            copy.wf(),
            copy@ == self@,
            copy.same_make(self),
            copy.terminated() == self.zero_terminated(),
    {
        let mut copy = Self::sized_new(self.zero_terminated, self.clear, self.elt_size, self.len);
        let data = self.data();
        copy.splice_in(0, data.as_slice(), self.len);
        assert(copy@ =~= self@);
        copy
    }

    /// Add the first `len` elements of `data` at the end.
    pub fn append_vals(&mut self, data: Option<&[u8]>, len: UInt) -> (array: &mut Self)
        requires
            old(self).wf(),
            len > 0 ==> data is Some && len * old(self).size() <= data->0@.len(),
            fits(old(self).size(), old(self).zero_terminated(), old(self)@.len() + len),
        ensures
            *final(self) == *final(array),
            array.wf(),
            array.same_make(old(self)),
            len > 0 ==> array@ == old(self)@ + elements(
                data->0@,
                old(self).size(),
                len as int,
            ) && array.terminated() == old(self).zero_terminated(),
            len == 0 ==> *array == *old(self),
    {
        if len == 0 {
            return self;
        }
        let end: UInt = self.len;
        let source: &[u8] = data.unwrap();
        self.splice_in(end, source, len);
        assert(self@ =~= old(self)@ + elements(source@, old(self).size(), len as int));
        self
    }

    /// Add the first `len` elements of `data` at the start.
    pub fn prepend_vals(&mut self, data: Option<&[u8]>, len: UInt) -> (array: &mut Self)
        requires
            old(self).wf(),
            len > 0 ==> data is Some && len * old(self).size() <= data->0@.len(),
            fits(old(self).size(), old(self).zero_terminated(), old(self)@.len() + len),
        ensures
            *final(self) == *final(array),
            array.wf(),
            array.same_make(old(self)),
            len > 0 ==> array@ == elements(data->0@, old(self).size(), len as int) + old(self)@
                && array.terminated() == old(self).zero_terminated(),
            len == 0 ==> *array == *old(self),
    {
        if len == 0 {
            return self;
        }
        let source: &[u8] = data.unwrap();
        self.splice_in(0, source, len);
        assert(self@ =~= elements(source@, old(self).size(), len as int) + old(self)@);
        self
    }

    /// Put the first `len` elements of `data` in before the element at `index`. Past the end, zero
    /// elements fill the gap.
    pub fn insert_vals(&mut self, index: UInt, data: Option<&[u8]>, len: UInt) -> (array: &mut Self)
        requires
            old(self).wf(),
            len > 0 ==> data is Some && len * old(self).size() <= data->0@.len(),
            len > 0 ==> fits(
                old(self).size(),
                old(self).zero_terminated(),
                (if index < old(self)@.len() {
                    old(self)@.len() as int
                } else {
                    index as int
                }) + len,
            ),
        ensures
            *final(self) == *final(array),
            array.wf(),
            array.same_make(old(self)),
            len > 0 ==> array.terminated() == old(self).zero_terminated(),
            len > 0 && index <= old(self)@.len() ==> array@ == old(self)@.take(index as int)
                + elements(data->0@, old(self).size(), len as int) + old(self)@.skip(index as int),
            len > 0 && index > old(self)@.len() ==> array@ == old(self)@ + zero_elements(
                old(self).size(),
                index - old(self)@.len(),
            ) + elements(data->0@, old(self).size(), len as int),
            len == 0 ==> *array == *old(self),
    {
        if len == 0 {
            return self;
        }
        let source: &[u8] = data.unwrap();
        if index >= self.len {
            let ghost gap = index - self.len;
            proof {
                lemma_bytes_grow(index as int, index + len, self.elt_size as int);
                lemma_bytes_grow(index + 1, index + len + 1, self.elt_size as int);
            }
            self.set_size(index);
            assert(self@.len() == index);
            self.splice_in(index, source, len);
            proof {
                let new = elements(source@, old(self).size(), len as int);
                assert(self@ =~= old(self)@ + zero_elements(old(self).size(), gap) + new);
                if gap == 0 {
                    assert(self@ =~= old(self)@.take(index as int) + new + old(self)@.skip(
                        index as int,
                    ));
                }
            }
        } else {
            self.splice_in(index, source, len);
        }
        self
    }

    /// Cut the array to `length` elements, or fill it up with zero elements.
    pub fn set_size(&mut self, length: UInt) -> (array: &mut Self)
        requires
            old(self).wf(),
            fits(old(self).size(), old(self).zero_terminated(), length as int),
        ensures
            *final(self) == *final(array),
            array.wf(),
            array.same_make(old(self)),
            array.terminated() == old(self).zero_terminated(),
            length <= old(self)@.len() ==> array@ == old(self)@.take(length as int),
            length > old(self)@.len() ==> array@ == old(self)@ + zero_elements(
                old(self).size(),
                length - old(self)@.len(),
            ),
    {
        let cur_len: UInt = self.len;
        if length > cur_len {
            self.maybe_expand(length - cur_len);
            proof {
                let size = self.elt_size as int;
                let n = length - cur_len;
                let used = self.used();
                lemma_bytes_grow(0, cur_len as int, size);
                lemma_bytes_grow(cur_len as int, length as int, size);
                lemma_bytes_grow(length as int, length + 1, size);
                let whole = self.data@.take(length * size);
                assert(whole =~= self.data@.take(used) + zeros(n * size));
                lemma_elements_zero(size, n);
                lemma_elements_take(self.data@, size, cur_len as int, cur_len as int);
                assert(self@.take(cur_len as int) =~= self@);
                lemma_elements_add(self.data@.take(used), zeros(n * size), size, cur_len as int, n);
                lemma_elements_take(self.data@, size, length as int, length as int);
                assert(elements(self.data@, size, length as int).take(length as int) =~= elements(
                    self.data@,
                    size,
                    length as int,
                ));
            }
            self.len = length;
            self.zero_terminate();
        } else if length < cur_len {
            self.splice_out(length, cur_len - length);
            assert(self@ =~= old(self)@.take(length as int));
        } else {
            self.zero_terminate();
            assert(self@ =~= old(self)@.take(length as int));
        }
        self
    }

    /// Remove the element at `index`. The others keep their order.
    pub fn remove_index(&mut self, index: UInt) -> (array: &mut Self)
        requires
            old(self).wf(),
            index < old(self)@.len(),
        ensures
            *final(self) == *final(array),
            array.wf(),
            array.same_make(old(self)),
            array.terminated() == old(self).zero_terminated(),
            array@ == old(self)@.remove(index as int),
    {
        self.splice_out(index, 1);
        assert(self@ =~= old(self)@.remove(index as int));
        self
    }

    /// Remove the element at `index`. The last element takes its place.
    pub fn remove_index_fast(&mut self, index: UInt) -> (array: &mut Self)
        requires
            old(self).wf(),
            index < old(self)@.len(),
        ensures
            *final(self) == *final(array),
            array.wf(),
            array.same_make(old(self)),
            array.terminated() == old(self).zero_terminated(),
            array@ == old(self)@.update(index as int, old(self)@.last()).drop_last(),
    {
        let last: UInt = self.len - 1;
        if index != last {
            let ghost size = self.elt_size as int;
            let ghost before = self.data@;
            proof {
                self.lemma_used();
                lemma_bounds(size, index as int, last as int);
                lemma_bounds(size, last as int, self.len as int);
                lemma_bytes_grow(index as int, last as int, size);
            }
            let to: usize = self.elt_byte_len(index);
            let from: usize = self.elt_byte_len(last);
            move_down(&mut self.data, from, to, self.elt_size as usize);
            proof {
                lemma_elements_update(before, self.data@, size, self.len as int, index as int);
                assert(self@ == old(self)@.update(index as int, old(self)@.last()));
                assert forall|i: int| self.used() <= i < self.data@.len() implies #[trigger] self.data@[i]
                    == 0 by {
                    assert(self.data@[i] == before[i]);
                }
            }
        }
        let ghost moved = self@;
        self.splice_out(last, 1);
        proof {
            assert(self@ =~= moved.drop_last());
            assert(old(self)@.update(index as int, old(self)@.last()).drop_last()
                =~= moved.drop_last());
        }
        self
    }

    /// Remove `length` elements from `index` on.
    pub fn remove_range(&mut self, index: UInt, length: UInt) -> (array: &mut Self)
        requires
            old(self).wf(),
            index + length <= old(self)@.len(),
        ensures
            *final(self) == *final(array),
            array.wf(),
            array.same_make(old(self)),
            length > 0 ==> array.terminated() == old(self).zero_terminated(),
            length > 0 ==> array@ == old(self)@.take(index as int) + old(self)@.skip(
                index + length,
            ),
            length == 0 ==> *array == *old(self),
    {
        if length == 0 {
            return self;
        }
        self.splice_out(index, length);
        self
    }

    /// The element at `index` as a number: what `i32::from_ne_bytes` makes of its first bytes, at
    /// most four, with zero bytes behind them.
    pub fn index_i32(&self, index: UInt) -> (value: i32)
        requires
            self.wf(),
            index < self@.len(),
        ensures
            native_number(first_four(self@[index as int]), value),
            reads_as(first_four(self@[index as int]), value as int),
    {
        proof {
            self.lemma_used();
            lemma_bounds(self.elt_size as int, index as int, self.len as int);
        }
        let offset: usize = self.elt_byte_len(index);
        let size: usize = self.elt_size as usize;
        let total: usize = self.data.len();
        let mut bytes: [u8; 4] = [0u8; 4];
        let mut i: usize = 0;
        while i < size && i < 4
            invariant
                i <= 4,
                i <= size == self.elt_size,
                offset + size <= self.data@.len() == total,
                forall|j: int|
                    0 <= j < 4 ==> #[trigger] bytes@[j] == (if j < i {
                        self.data@[offset + j]
                    } else {
                        0
                    }),
            decreases size - i,
        {
            bytes[i] = self.data[offset + i];
            i = i + 1;
        }
        assert(bytes@ =~= first_four(self@[index as int]));
        let value: i32 = i32_from_ne_bytes(bytes);
        assert(call_ensures(i32_from_ne_bytes, (bytes,), value));
        value
    }

    /// Take the bytes out: those of the elements, with the zero element behind them. With
    /// `free_segment` they are dropped.
    fn take_segment(&mut self, free_segment: bool) -> (segment: Option<Vec<u8>>)
        requires
            old(self).wf(),
        ensures
            final(self).wf(),
            final(self).same_make(old(self)),
            final(self)@ == Seq::<Seq<u8>>::empty(),
            !final(self).terminated(),
            segment is Some == !free_segment,
            segment matches Some(bytes) ==> is_segment(bytes@, *old(self)),
    {
        proof {
            self.lemma_used();
            lemma_bytes_grow(0, 1, self.elt_size as int);
        }
        let mut end: usize = self.elt_byte_len(self.len);
        if self.zero_terminated {
            end = end + self.elt_size as usize;
        }
        let mut data: Vec<u8> = Vec::new();
        std::mem::swap(&mut data, &mut self.data);
        data.truncate(end);
        proof {
            let size = old(self).elt_size as int;
            let n = old(self).len as int;
            lemma_elements_take(old(self).data@, size, n, n);
            assert(old(self)@.take(n) =~= old(self)@);
            lemma_bounds(size, n, n + 1);
            assert(data@.take(n * size) =~= old(self).data@.take(n * size));
            lemma_elements_same(data@, old(self).data@, size, n);
            if old(self).terminated() {
                assert(data@.skip(n * size) =~= zeros(size));
            }
        }
        self.len = 0;
        assert(self@ =~= Seq::<Seq<u8>>::empty());
        if free_segment {
            None
        } else {
            Some(data)
        }
    }

    /// One more reference to a shared array.
    pub fn ref_(heap: &mut RefHeap<Self>, array: &Ref) -> (copy: Ref)
        requires
            old(heap).has(array),
            old(heap).count(array) < u32::MAX,
        ensures
            copy.id() == array.id(),
            final(heap)@ == old(heap)@.insert(
                array.id(),
                Counted {
                    value: old(heap).value(array),
                    count: (old(heap).count(array) + 1) as u32,
                },
            ),
    {
        heap.add_ref(array)
    }

    /// Give up a reference to a shared array.
    pub fn unref(heap: &mut RefHeap<Self>, array: Ref)
        requires
            old(heap).has(&array),
            old(heap).count(&array) > 0,
        ensures
            old(heap).count(&array) == 1 ==> final(heap)@ == old(heap)@.remove(array.id()),
            old(heap).count(&array) > 1 ==> final(heap)@ == old(heap)@.insert(
                array.id(),
                Counted {
                    value: old(heap).value(&array),
                    count: (old(heap).count(&array) - 1) as u32,
                },
            ),
    {
        heap.release(array);
    }

    /// Give up a reference to a shared array and free its bytes, or take them without
    /// `free_segment`. Where there are other references the array stays, without elements.
    pub fn free(heap: &mut RefHeap<Self>, array: Ref, free_segment: bool) -> (segment: Option<
        Vec<u8>,
    >)
        requires
            old(heap).has(&array),
            old(heap).count(&array) > 0,
            old(heap).value(&array).wf(),
        ensures
            segment is Some == !free_segment,
            segment matches Some(bytes) ==> is_segment(bytes@, old(heap).value(&array)),
            final(heap)@.remove(array.id()) == old(heap)@.remove(array.id()),
            final(heap).has(&array) == (old(heap).count(&array) > 1),
            final(heap).has(&array) ==> {
                let after = final(heap).value(&array);
                &&& final(heap).count(&array) == old(heap).count(&array) - 1
                &&& after.wf()
                &&& after.same_make(&old(heap).value(&array))
                &&& after@ == Seq::<Seq<u8>>::empty()
                &&& !after.terminated()
            },
    {
        let segment = heap.get_mut(&array).take_segment(free_segment);
        let ghost emptied = *heap;
        proof {
            assert(emptied@.remove(array.id()) =~= old(heap)@.remove(array.id()));
        }
        let ghost id = array.id();
        heap.release(array);
        assert(heap@.remove(id) =~= emptied@.remove(id));
        segment
    }
}

/// The elements are a matter of their bytes.
proof fn lemma_elements_same(a: Seq<u8>, b: Seq<u8>, size: int, n: int)
    requires
        0 < size,
        0 <= n,
        n * size <= a.len(),
        n * size <= b.len(),
        a.take(n * size) == b.take(n * size),
    ensures
        elements(a, size, n) == elements(b, size, n),
{
    lemma_elements_take(a, size, n, n);
    lemma_elements_take(b, size, n, n);
    assert(elements(a, size, n).take(n) =~= elements(a, size, n));
    assert(elements(b, size, n).take(n) =~= elements(b, size, n));
}

/// The elements after some were put in.
proof fn lemma_elements_insert(
    before: Seq<u8>,
    source: Seq<u8>,
    after: Seq<u8>,
    size: int,
    len: int,
    index: int,
    n: int,
)
    requires
        0 < size,
        0 <= index <= len,
        0 <= n,
        len * size <= before.len(),
        n * size <= source.len(),
        (len + n) * size <= after.len(),
        after.take((len + n) * size) == before.take(index * size) + source.take(n * size)
            + before.subrange(index * size, len * size),
    ensures
        elements(after, size, len + n) == elements(before, size, len).take(index) + elements(
            source,
            size,
            n,
        ) + elements(before, size, len).skip(index),
{
    lemma_bytes_grow(0, index, size);
    lemma_bytes_grow(index, len, size);
    lemma_bytes_grow(0, n, size);
    lemma_bytes_grow(index, index + n, size);
    let a = before.take(index * size);
    let b = source.take(n * size);
    let c = before.subrange(index * size, len * size);
    lemma_elements_take(before, size, len, index);
    lemma_elements_take(source, size, n, n);
    assert(elements(source, size, n).take(n) =~= elements(source, size, n));
    let whole = before.take(len * size);
    lemma_elements_take(before, size, len, len);
    assert(elements(before, size, len).take(len) =~= elements(before, size, len));
    lemma_elements_skip(whole, size, len, index);
    assert(whole.skip(index * size) =~= c);
    lemma_elements_add(a, b, size, index, n);
    lemma_elements_add(a + b, c, size, index + n, len - index);
    lemma_elements_take(after, size, len + n, len + n);
    assert(elements(after, size, len + n).take(len + n) =~= elements(after, size, len + n));
}

/// The elements after the last was written over the one at `index`.
proof fn lemma_elements_update(
    before: Seq<u8>,
    after: Seq<u8>,
    size: int,
    len: int,
    index: int,
)
    requires
        0 < size,
        0 <= index < len - 1,
        len * size <= before.len(),
        after == before.take(index * size) + before.subrange((len - 1) * size, (len - 1) * size + size)
            + before.skip(index * size + size),
    ensures
        elements(after, size, len) == elements(before, size, len).update(
            index,
            elements(before, size, len).last(),
        ),
{
    let old_elements = elements(before, size, len);
    let new = elements(after, size, len);
    lemma_bounds(size, index, len);
    lemma_bounds(size, len - 1, len);
    assert forall|i: int| 0 <= i < len implies new[i] == old_elements.update(
        index,
        old_elements.last(),
    )[i] by {
        lemma_bounds(size, i, len);
        if i < index {
            lemma_bytes_grow(i + 1, index, size);
        } else if i > index {
            lemma_bytes_grow(index + 1, i, size);
        }
        assert(new[i] =~= old_elements.update(index, old_elements.last())[i]);
    }
    assert(new =~= old_elements.update(index, old_elements.last()));
}

/// The elements after some were taken out.
proof fn lemma_elements_remove(
    before: Seq<u8>,
    after: Seq<u8>,
    size: int,
    len: int,
    index: int,
    n: int,
)
    requires
        0 < size,
        0 <= index,
        0 <= n,
        index + n <= len,
        len * size <= before.len(),
        after == before.take(index * size) + before.subrange((index + n) * size, len * size),
    ensures
        elements(after, size, len - n) == elements(before, size, len).take(index) + elements(
            before,
            size,
            len,
        ).skip(index + n),
{
    lemma_bytes_grow(0, index, size);
    lemma_bytes_grow(index, index + n, size);
    lemma_bytes_grow(index + n, len, size);
    let a = before.take(index * size);
    let c = before.subrange((index + n) * size, len * size);
    let whole = before.take(len * size);
    lemma_elements_take(before, size, len, index);
    lemma_elements_take(before, size, len, len);
    assert(elements(before, size, len).take(len) =~= elements(before, size, len));
    lemma_elements_skip(whole, size, len, index + n);
    assert(whole.skip((index + n) * size) =~= c);
    lemma_elements_add(a, c, size, index, len - index - n);
}

/// The elements of an array are of its size, which is not 0; there is room for them, with the
/// terminator where one stands behind them; and they are no more than an array can have.
pub proof fn law_elements_fit(array: GArray)
    requires
        array.wf(),
    ensures
        0 < array.size() <= u32::MAX,
        fits(array.size(), array.zero_terminated(), array@.len() as int),
        forall|i: int| 0 <= i < array@.len() ==> (#[trigger] array@[i]).len() == array.size(),
        array@.len() * array.size() <= array.room(),
        array.terminated() ==> array.zero_terminated() && (array@.len() + 1) * array.size()
            <= array.room(),
{
    let size = array.size();
    let n = array@.len() as int;
    assert forall|i: int| 0 <= i < n implies (#[trigger] array@[i]).len() == size by {
        lemma_bounds(size, i, n);
    }
    lemma_bytes_grow(0, n, size);
    lemma_bounds(size, n, n + 1);
}

/// The bytes of a byte array are no more than an array can have, and there is room for them.
pub proof fn law_bytes_fit(array: ByteArray)
    requires
        array.wf(),
    ensures
        fits(1, false, array@.len() as int),
        array@.len() <= array.room(),
{
    law_elements_fit(array.array);
}

/// Bytes are a matter of their elements.
pub proof fn law_elements_determine_bytes(a: Seq<u8>, b: Seq<u8>, size: int, n: int)
    requires
        0 < size,
        0 <= n,
        a.len() == n * size,
        b.len() == n * size,
        elements(a, size, n) == elements(b, size, n),
    ensures
        a == b,
{
    assert forall|i: int| 0 <= i < a.len() implies a[i] == b[i] by {
        let k = i / size;
        let r = i % size;
        vstd::arithmetic::div_mod::lemma_fundamental_div_mod(i, size);
        vstd::arithmetic::div_mod::lemma_mod_bound(i, size);
        vstd::arithmetic::div_mod::lemma_div_pos_is_pos(i, size);
        assert(k * size == size * k) by (nonlinear_arith);
        assert(k < n) by (nonlinear_arith)
            requires
                i == k * size + r,
                0 <= r,
                i < n * size,
                0 < size,
        ;
        lemma_bounds(size, k, n);
        assert(elements(a, size, n)[k][r] == a[i]);
        assert(elements(b, size, n)[k][r] == b[i]);
    }
    assert(a =~= b);
}

/// Removing the elements that were put in gives back the elements that were there.
pub proof fn law_insert_then_remove(s: Seq<Seq<u8>>, new: Seq<Seq<u8>>, index: int)
    requires
        0 <= index <= s.len(),
    ensures
        ({
            let more = s.take(index) + new + s.skip(index);
            more.take(index) + more.skip(index + new.len()) == s
        }),
{
    let more = s.take(index) + new + s.skip(index);
    assert(more.take(index) + more.skip(index + new.len()) =~= s);
}

/// A growable array of bytes.
pub struct ByteArray {
    array: GArray,
}

/// The bytes of elements of one byte.
pub open spec fn single_bytes(elements: Seq<Seq<u8>>) -> Seq<u8> {
    Seq::new(elements.len(), |i: int| elements[i][0])
}

/// Elements of one byte.
proof fn lemma_single_bytes(bytes: Seq<u8>, n: int)
    requires
        0 <= n <= bytes.len(),
    ensures
        single_bytes(elements(bytes, 1, n)) == bytes.take(n),
{
    assert(single_bytes(elements(bytes, 1, n)) =~= bytes.take(n));
}

impl View for ByteArray {
    type V = Seq<u8>;

    /// The bytes.
    closed spec fn view(&self) -> Seq<u8> {
        single_bytes(self.array@)
    }
}

impl Default for ByteArray {
    fn default() -> (array: Self)
        ensures
            array.wf(),
            array@ == Seq::<u8>::empty(),
    {
        ByteArray::new()
    }
}

impl ByteArray {
    /// The invariant of a byte array.
    pub closed spec fn wf(&self) -> bool {
        &&& self.array.wf()
        &&& self.array.size() == 1
        &&& !self.array.zero_terminated()
        &&& !self.array.clears()
    }

    /// The bytes that are allocated.
    pub closed spec fn room(&self) -> int {
        self.array.room()
    }

    /// An empty array.
    pub fn new() -> (array: Self)
        ensures
            array.wf(),
            array@ == Seq::<u8>::empty(),
            array.room() == 0,
    {
        ByteArray::sized_new(0)
    }

    /// An empty array with room for `reserved_size` bytes.
    pub fn sized_new(reserved_size: UInt) -> (array: Self)
        requires
            fits(1, false, reserved_size as int),
        ensures
            array.wf(),
            array@ == Seq::<u8>::empty(),
            array.room() == reserved(1, false, reserved_size as int),
            array.room() >= reserved_size,
    {
        let array = ByteArray { array: GArray::sized_new(false, false, 1, reserved_size) };
        assert(array@ =~= Seq::<u8>::empty());
        array
    }

    /// The number of bytes.
    pub fn len(&self) -> (len: UInt)
        ensures
            len == self@.len(),
    {
        self.array.len()
    }

    /// Whether there are no bytes.
    pub fn is_empty(&self) -> (empty: bool)
        ensures
            empty == (self@.len() == 0),
    {
        self.array.is_empty()
    }

    /// The bytes.
    pub fn data(&self) -> (data: Vec<u8>)
        requires
            self.wf(),
        ensures
            data@ == self@,
    {
        let data = self.array.data();
        proof {
            lemma_single_bytes(data@, data@.len() as int);
            assert(data@.take(data@.len() as int) =~= data@);
        }
        data
    }

    /// Add the first `len` bytes of `data` at the end.
    pub fn append(&mut self, data: &[u8], len: UInt) -> (array: &mut Self)
        requires
            old(self).wf(),
            len <= data@.len(),
            fits(1, false, old(self)@.len() + len),
        ensures
            *final(self) == *final(array),
            array.wf(),
            array@ == old(self)@ + data@.take(len as int),
    {
        self.array.append_vals(Some(data), len);
        proof {
            lemma_single_bytes(data@, len as int);
            assert(self@ =~= old(self)@ + single_bytes(elements(data@, 1, len as int)));
        }
        self
    }

    /// Add the first `len` bytes of `data` at the start.
    pub fn prepend(&mut self, data: &[u8], len: UInt) -> (array: &mut Self)
        requires
            old(self).wf(),
            len <= data@.len(),
            fits(1, false, old(self)@.len() + len),
        ensures
            *final(self) == *final(array),
            array.wf(),
            array@ == data@.take(len as int) + old(self)@,
    {
        self.array.prepend_vals(Some(data), len);
        proof {
            lemma_single_bytes(data@, len as int);
            assert(self@ =~= single_bytes(elements(data@, 1, len as int)) + old(self)@);
        }
        self
    }

    /// Cut the array to `length` bytes, or fill it up with zero bytes.
    pub fn set_size(&mut self, length: UInt) -> (array: &mut Self)
        requires
            old(self).wf(),
            fits(1, false, length as int),
        ensures
            *final(self) == *final(array),
            array.wf(),
            length <= old(self)@.len() ==> array@ == old(self)@.take(length as int),
            length > old(self)@.len() ==> array@ == old(self)@ + zeros(length - old(self)@.len()),
    {
        self.array.set_size(length);
        proof {
            if length <= old(self)@.len() {
                assert(self@ =~= old(self)@.take(length as int));
            } else {
                assert(self@ =~= old(self)@ + zeros(length - old(self)@.len()));
            }
        }
        self
    }

    /// Remove the byte at `index`. The others keep their order.
    pub fn remove_index(&mut self, index: UInt) -> (array: &mut Self)
        requires
            old(self).wf(),
            index < old(self)@.len(),
        ensures
            *final(self) == *final(array),
            array.wf(),
            array@ == old(self)@.remove(index as int),
    {
        self.array.remove_index(index);
        assert(self@ =~= old(self)@.remove(index as int));
        self
    }

    /// Remove the byte at `index`. The last byte takes its place.
    pub fn remove_index_fast(&mut self, index: UInt) -> (array: &mut Self)
        requires
            old(self).wf(),
            index < old(self)@.len(),
        ensures
            *final(self) == *final(array),
            array.wf(),
            array@ == old(self)@.update(index as int, old(self)@.last()).drop_last(),
    {
        self.array.remove_index_fast(index);
        assert(self@ =~= old(self)@.update(index as int, old(self)@.last()).drop_last());
        self
    }

    /// Remove `length` bytes from `index` on.
    pub fn remove_range(&mut self, index: UInt, length: UInt) -> (array: &mut Self)
        requires
            old(self).wf(),
            index + length <= old(self)@.len(),
        ensures
            *final(self) == *final(array),
            array.wf(),
            array@ == old(self)@.take(index as int) + old(self)@.skip(index + length),
    {
        self.array.remove_range(index, length);
        assert(self@ =~= old(self)@.take(index as int) + old(self)@.skip(index + length));
        self
    }

    /// One more reference to a shared array.
    pub fn ref_(heap: &mut RefHeap<Self>, array: &Ref) -> (copy: Ref)
        requires
            old(heap).has(array),
            old(heap).count(array) < u32::MAX,
        ensures
            copy.id() == array.id(),
            final(heap)@ == old(heap)@.insert(
                array.id(),
                Counted {
                    value: old(heap).value(array),
                    count: (old(heap).count(array) + 1) as u32,
                },
            ),
    {
        heap.add_ref(array)
    }

    /// Give up a reference to a shared array.
    pub fn unref(heap: &mut RefHeap<Self>, array: Ref)
        requires
            old(heap).has(&array),
            old(heap).count(&array) > 0,
        ensures
            old(heap).count(&array) == 1 ==> final(heap)@ == old(heap)@.remove(array.id()),
            old(heap).count(&array) > 1 ==> final(heap)@ == old(heap)@.insert(
                array.id(),
                Counted {
                    value: old(heap).value(&array),
                    count: (old(heap).count(&array) - 1) as u32,
                },
            ),
    {
        heap.release(array);
    }

    /// Give up a reference to a shared array and free its bytes, or take them without
    /// `free_segment`. Where there are other references the array stays, without bytes.
    pub fn free(heap: &mut RefHeap<Self>, array: Ref, free_segment: bool) -> (segment: Option<
        Vec<u8>,
    >)
        requires
            old(heap).has(&array),
            old(heap).count(&array) > 0,
            old(heap).value(&array).wf(),
        ensures
            segment is Some == !free_segment,
            segment matches Some(bytes) ==> bytes@ == old(heap).value(&array)@,
            final(heap)@.remove(array.id()) == old(heap)@.remove(array.id()),
            final(heap).has(&array) == (old(heap).count(&array) > 1),
            final(heap).has(&array) ==> {
                &&& final(heap).count(&array) == old(heap).count(&array) - 1
                &&& final(heap).value(&array).wf()
                &&& final(heap).value(&array)@ == Seq::<u8>::empty()
            },
    {
        let segment = heap.get_mut(&array).array.take_segment(free_segment);
        let ghost emptied = *heap;
        let ghost id = array.id();
        proof {
            let before = old(heap).value(&array);
            if segment is Some {
                let bytes = segment->0@;
                lemma_single_bytes(bytes, bytes.len() as int);
                assert(bytes.take(bytes.len() as int) =~= bytes);
                assert(bytes =~= before@);
            }
            assert(emptied.value(&array)@ =~= Seq::<u8>::empty());
            assert(emptied@.remove(id) =~= old(heap)@.remove(id));
        }
        heap.release(array);
        assert(heap@.remove(id) =~= emptied@.remove(id));
        segment
    }
}

/// Where the bytes of elements stand: those of one behind those of the other.
pub proof fn law_element_bytes(bytes: Seq<u8>, size: int, n: int)
    requires
        0 < size,
        0 <= n,
        n * size <= bytes.len(),
    ensures
        elements(bytes, size, n).len() == n,
        forall|i: int|
            0 <= i < n ==> (#[trigger] elements(bytes, size, n)[i]).len() == size,
        forall|i: int, k: int|
            0 <= i < n && 0 <= k < size ==> #[trigger] elements(bytes, size, n)[i][k]
                == bytes[i * size + k],
{
    assert forall|i: int| 0 <= i < n implies (#[trigger] elements(bytes, size, n)[i]).len()
        == size by {
        lemma_bounds(size, i, n);
    }
    assert forall|i: int, k: int| 0 <= i < n && 0 <= k < size implies #[trigger] elements(
        bytes,
        size,
        n,
    )[i][k] == bytes[i * size + k] by {
        lemma_bounds(size, i, n);
    }
}

/// Elements that are zero have the size of an element and zero in every byte.
pub proof fn law_zero_elements(size: int, n: int)
    requires
        0 < size,
        0 <= n,
    ensures
        zero_elements(size, n).len() == n,
        forall|i: int| 0 <= i < n ==> (#[trigger] zero_elements(size, n)[i]).len() == size,
        forall|i: int, k: int|
            0 <= i < n && 0 <= k < size ==> #[trigger] zero_elements(size, n)[i][k] == 0,
{
}

/// What is allocated is enough, a power of two, and at least 16 bytes; past that, it is under
/// twice what is wanted.
pub proof fn law_allocation(want: int)
    requires
        0 < want,
    ensures
        want <= allocation(want),
        16 <= allocation(want),
        allocation(want) < 2 * want || allocation(want) == 16,
        exists|e: nat| allocation(want) == vstd::arithmetic::power2::pow2(e),
{
    crate::growth::law_nearest_power(want);
    vstd::arithmetic::power2::lemma2_to64();
    if crate::growth::nearest_power(want) < 16 {
        assert(allocation(want) == vstd::arithmetic::power2::pow2(4));
    }
}

/// A new array has room for the elements that it is made for, with the terminator where it keeps
/// one; an array that needs no room gets none.
pub proof fn law_reserved(size: int, zero_terminated: bool, n: int)
    requires
        0 < size,
        0 <= n,
    ensures
        n * size <= reserved(size, zero_terminated, n),
        zero_terminated ==> (n + 1) * size <= reserved(size, zero_terminated, n),
        n == 0 && !zero_terminated ==> reserved(size, zero_terminated, n) == 0,
{
    assert(0 * size == 0) by (nonlinear_arith);
    if n > 0 {
        assert(n * size > 0) by (nonlinear_arith)
            requires
                n > 0,
                size > 0,
        ;
        law_allocation(n * size);
    }
    assert((n + 1) * size == n * size + size) by (nonlinear_arith);
    assert((n + 1) * size > 0 && n * size <= (n + 1) * size) by (nonlinear_arith)
        requires
            n >= 0,
            size > 0,
    ;
    law_allocation((n + 1) * size);
}

/// A number of four bytes is in the range of 32 bits with a sign, and gives its bytes back, the
/// least significant first.
pub proof fn law_signed_value(bytes: Seq<u8>)
    requires
        bytes.len() == 4,
    ensures
        i32::MIN <= signed_value(bytes) <= i32::MAX,
        signed_value(bytes) % 256 == bytes[0],
        signed_value(bytes) / 256 % 256 == bytes[1],
        signed_value(bytes) / 65536 % 256 == bytes[2],
        signed_value(bytes) / 16777216 % 256 == bytes[3],
{
}

/// The bytes that a number is read from: the element's own, in order, as far as it has them, and
/// zero behind them.
pub proof fn law_first_four(element: Seq<u8>)
    ensures
        first_four(element).len() == 4,
        element.len() >= 4 ==> first_four(element) == element.take(4),
        element.len() < 4 ==> first_four(element).take(element.len() as int) == element,
        forall|i: int| element.len() <= i < 4 ==> #[trigger] first_four(element)[i] == 0,
{
    if element.len() >= 4 {
        assert(first_four(element) =~= element.take(4));
    } else {
        assert(first_four(element).take(element.len() as int) =~= element);
    }
}

/// The bytes that are handed out of an array: every byte of every element at its place, nothing
/// more but a zero element where one stood behind them.
pub proof fn law_segment(bytes: Seq<u8>, array: GArray)
    requires
        array.wf(),
        is_segment(bytes, array),
    ensures
        forall|i: int, k: int|
            0 <= i < array@.len() && 0 <= k < array.size() ==> #[trigger] array@[i][k] == bytes[i
                * array.size() + k],
        !array.terminated() ==> bytes.len() == array@.len() * array.size(),
        array.terminated() ==> bytes.len() == (array@.len() + 1) * array.size(),
        forall|i: int|
            array@.len() * array.size() <= i < bytes.len() ==> #[trigger] bytes[i] == 0,
{
    let size = array.size();
    let n = array@.len() as int;
    law_elements_fit(array);
    law_element_bytes(bytes, size, n);
    assert((n + 1) * size == n * size + size) by (nonlinear_arith);
    assert forall|i: int| n * size <= i < bytes.len() implies #[trigger] bytes[i] == 0 by {
        assert(bytes[i] == bytes.skip(n * size)[i - n * size]);
    }
}

} // verus!
