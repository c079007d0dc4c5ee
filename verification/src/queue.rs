//! Double-ended queues.

use std::collections::VecDeque;
use vstd::prelude::*;
use vstd::std_specs::cmp::PartialEqSpec;
use crate::UInt;

verus! {

/// A double-ended queue. The front of the deque is the head, the back is the tail.
#[derive(Clone, Debug)]
pub struct GQueue<T> {
    deque: VecDeque<T>,
}

impl<T> View for GQueue<T> {
    type V = Seq<T>;

    /// The elements from head to tail.
    closed spec fn view(&self) -> Seq<T> {
        self.deque@
    }
}

impl<T> Default for GQueue<T> {
    fn default() -> (queue: Self)
        ensures
            queue@ == Seq::<T>::empty(),
    {
        GQueue { deque: VecDeque::new() }
    }
}

/// One call of a function with an element and the data so far.
pub open spec fn visit<T, U, F: Fn(&T, U) -> U>(func: F) -> spec_fn(T, U, U) -> bool {
    |item: T, before: U, after: U| func.ensures((&item, before), after)
}

/// One call of a function that takes an element, with the data so far.
pub open spec fn consume<T, U, F: Fn(T, U) -> U>(func: F) -> spec_fn(T, U, U) -> bool {
    |item: T, before: U, after: U| func.ensures((item, before), after)
}

/// `==` may answer `holds` on an element and `data`.
pub open spec fn equality<T: PartialEq>(data: T) -> spec_fn(T, bool) -> bool {
    |item: T, holds: bool| call_ensures(T::eq, (&item, &data), holds)
}

/// `predicate` may answer `holds` on an element.
pub open spec fn test<T, F: Fn(&T) -> bool>(predicate: F) -> spec_fn(T, bool) -> bool {
    |item: T, holds: bool| predicate.ensures((&item,), holds)
}

impl<T> GQueue<T> {
    /// An empty queue.
    pub fn new() -> (queue: Self)
        ensures
            queue@ == Seq::<T>::empty(),
    {
        GQueue { deque: VecDeque::new() }
    }

    /// Make the queue empty.
    pub fn init(&mut self)
        ensures
            final(self)@ == Seq::<T>::empty(),
    {
        self.deque.clear();
    }

    /// Whether the queue is empty.
    pub fn is_empty(&self) -> (empty: bool)
        ensures
            empty == (self@.len() == 0),
    {
        self.deque.len() == 0
    }

    /// The number of elements; where it needs more than 32 bits, the lower 32.
    pub fn get_length(&self) -> (length: UInt)
        ensures
            length as int == self@.len() as int % 0x1_0000_0000,
            self@.len() <= u32::MAX ==> length == self@.len(),
    {
        let wide: u64 = self.deque.len() as u64;
        assert(wide as u32 == wide % 0x1_0000_0000) by (bit_vector);
        wide as u32
    }

    /// The head.
    pub fn peek_head(&self) -> (head: Option<&T>)
        ensures
            head is Some == (self@.len() > 0),
            head matches Some(item) ==> *item == self@.first(),
    {
        if self.deque.len() == 0 {
            None
        } else {
            Some(&self.deque[0])
        }
    }

    /// The tail.
    pub fn peek_tail(&self) -> (tail: Option<&T>)
        ensures
            tail is Some == (self@.len() > 0),
            tail matches Some(item) ==> *item == self@.last(),
    {
        if self.deque.len() == 0 {
            None
        } else {
            Some(&self.deque[self.deque.len() - 1])
        }
    }

    /// Add an element at the head.
    pub fn push_head(&mut self, data: T)
        ensures
            final(self)@ == seq![data] + old(self)@,
    {
        self.deque.push_front(data);
    }

    /// Add an element at the tail.
    pub fn push_tail(&mut self, data: T)
        ensures
            final(self)@ == old(self)@.push(data),
    {
        self.deque.push_back(data);
    }

    /// Remove the head.
    pub fn pop_head(&mut self) -> (head: Option<T>)
        ensures
            old(self)@.len() == 0 ==> head is None && final(self)@ == old(self)@,
            old(self)@.len() > 0 ==> head == Some(old(self)@.first()) && final(self)@ == old(
                self,
            )@.skip(1),
    {
        let head = self.deque.pop_front();
        assert(old(self)@.len() > 0 ==> self@ =~= old(self)@.skip(1));
        head
    }

    /// Remove the tail.
    pub fn pop_tail(&mut self) -> (tail: Option<T>)
        ensures
            old(self)@.len() == 0 ==> tail is None && final(self)@ == old(self)@,
            old(self)@.len() > 0 ==> tail == Some(old(self)@.last()) && final(self)@ == old(
                self,
            )@.drop_last(),
    {
        let tail = self.deque.pop_back();
        assert(old(self)@.len() > 0 ==> self@ =~= old(self)@.drop_last());
        tail
    }

    /// Remove all elements.
    pub fn clear(&mut self)
        ensures
            final(self)@ == Seq::<T>::empty(),
    {
        self.deque.clear();
    }

    /// Remove all elements and call `free_func` with each and the data so far, from head to tail;
    /// the data is what the call before returned, `data` at first. Returns the last data.
    pub fn clear_full<U, F: Fn(T, U) -> U>(&mut self, free_func: F, data: U) -> (result: U)
        requires
            forall|item: T, data: U| #[trigger] free_func.requires((item, data)),
        ensures
            final(self)@ == Seq::<T>::empty(),
            crate::callback::folds(consume(free_func), old(self)@, data, result),
    {
        let ghost all = self@;
        let ghost step = consume::<T, U, F>(free_func);
        let ghost mut done: int = 0;
        let mut now: U = data;
        proof {
            crate::callback::lemma_folds_empty::<T, U>(step, data);
            assert(all.take(0) =~= Seq::<T>::empty());
            assert(all.skip(0) =~= all);
        }
        loop
            invariant
                forall|item: T, data: U| #[trigger] free_func.requires((item, data)),
                step == consume::<T, U, F>(free_func),
                0 <= done <= all.len(),
                self@ == all.skip(done),
                crate::callback::folds(step, all.take(done), data, now),
            ensures
                done == all.len(),
                self@ == Seq::<T>::empty(),
            decreases all.len() - done,
        {
            match self.pop_head() {
                None => {
                    break ;
                },
                Some(item) => {
                    let ghost before = now;
                    now = free_func(item, now);
                    proof {
                        assert(step(item, before, now));
                        crate::callback::lemma_folds_push(
                            step,
                            all.take(done),
                            item,
                            data,
                            before,
                            now,
                        );
                        assert(all.take(done).push(item) =~= all.take(done + 1));
                        assert(all.skip(done).skip(1) =~= all.skip(done + 1));
                        done = done + 1;
                    }
                },
            }
        }
        assert(all.take(done) =~= all);
        now
    }

    /// The end of a queue: as [`GQueue::clear_full`].
    pub fn free_full<U, F: Fn(T, U) -> U>(self, free_func: F, data: U) -> (result: U)
        requires
            forall|item: T, data: U| #[trigger] free_func.requires((item, data)),
        ensures
            crate::callback::folds(consume(free_func), self@, data, result),
    {
        let mut queue = self;
        queue.clear_full(free_func, data)
    }

    /// Reverse the order of the elements.
    pub fn reverse(&mut self)
        ensures
            final(self)@ == old(self)@.reverse(),
    {
        let ghost all = self@;
        let mut reversed: VecDeque<T> = VecDeque::new();
        assert(all.reverse().take(0) =~= Seq::<T>::empty());
        assert(all.take(all.len() as int) =~= all);
        loop
            invariant
                self@.len() + reversed@.len() == all.len(),
                self@ == all.take(self@.len() as int),
                reversed@ == all.reverse().take(reversed@.len() as int),
            ensures
                self@.len() == 0,
                reversed@.len() == all.len(),
                reversed@ == all.reverse().take(reversed@.len() as int),
            decreases self@.len(),
        {
            let ghost before = reversed@;
            match self.pop_tail() {
                None => {
                    break ;
                },
                Some(item) => {
                    reversed.push_back(item);
                    proof {
                        assert(all.take(self@.len() as int + 1).drop_last() =~= all.take(
                            self@.len() as int,
                        ));
                        assert(all.reverse()[before.len() as int] == item);
                        assert(reversed@ =~= all.reverse().take(reversed@.len() as int));
                    }
                },
            }
        }
        assert(all.reverse().take(all.len() as int) =~= all.reverse());
        self.deque = reversed;
    }

    /// Call `func` with each element and the data so far, from head to tail; the data is what the
    /// call before returned, `data` at first. Returns the last data.
    pub fn foreach<U, F: Fn(&T, U) -> U>(&self, func: F, data: U) -> (result: U)
        requires
            forall|item: &T, data: U| #[trigger] func.requires((item, data)),
        ensures
            crate::callback::folds(visit(func), self@, data, result),
    {
        let ghost all = self@;
        let ghost step = visit::<T, U, F>(func);
        let mut now: U = data;
        let mut i: usize = 0;
        proof {
            crate::callback::lemma_folds_empty::<T, U>(step, data);
            assert(all.take(0) =~= Seq::<T>::empty());
        }
        while i < self.deque.len()
            invariant
                forall|item: &T, data: U| #[trigger] func.requires((item, data)),
                step == visit::<T, U, F>(func),
                i <= all.len(),
                all == self.deque@,
                crate::callback::folds(step, all.take(i as int), data, now),
            decreases all.len() - i,
        {
            let ghost before = now;
            now = func(&self.deque[i], now);
            proof {
                assert(step(all[i as int], before, now));
                crate::callback::lemma_folds_push(
                    step,
                    all.take(i as int),
                    all[i as int],
                    data,
                    before,
                    now,
                );
                assert(all.take(i as int).push(all[i as int]) =~= all.take(i + 1));
            }
            i = i + 1;
        }
        assert(all.take(i as int) =~= all);
        now
    }

    /// The position of the first element that equals `data`: `==` answers `true` on it and `false`
    /// on those before it.
    pub fn find(&self, data: &T) -> (place: Option<usize>) where T: PartialEq
        ensures
            place matches Some(i) ==> i < self@.len() && crate::callback::finds(
                equality(*data),
                self@,
                i as int,
            ),
            place is None ==> crate::callback::finds(equality(*data), self@, self@.len() as int),
            T::obeys_eq_spec() ==> match place {
                Some(i) => {
                    &&& self@[i as int].eq_spec(data)
                    &&& forall|j: int| 0 <= j < i ==> !(#[trigger] self@[j]).eq_spec(data)
                },
                None => forall|j: int|
                    0 <= j < self@.len() ==> !(#[trigger] self@[j]).eq_spec(data),
            },
    {
        let ghost holds = equality(*data);
        let mut i: usize = 0;
        while i < self.deque.len()
            invariant
                i <= self@.len(),
                self@ == self.deque@,
                holds == equality(*data),
                forall|j: int| 0 <= j < i ==> holds(#[trigger] self@[j], false),
                T::obeys_eq_spec() ==> forall|j: int|
                    0 <= j < i ==> !(#[trigger] self@[j]).eq_spec(data),
            decreases self@.len() - i,
        {
            let equal: bool = self.deque[i].eq(data);
            assert(holds(self@[i as int], equal));
            if equal {
                return Some(i);
            }
            i = i + 1;
        }
        None
    }

    /// The position of the first element on which `predicate` holds.
    pub fn find_custom<F: Fn(&T) -> bool>(&self, predicate: F) -> (place: Option<usize>)
        requires
            forall|item: &T| #[trigger] predicate.requires((item,)),
        ensures
            place matches Some(i) ==> i < self@.len() && crate::callback::finds(
                test(predicate),
                self@,
                i as int,
            ),
            place is None ==> crate::callback::finds(test(predicate), self@, self@.len() as int),
    {
        let ghost holds = test::<T, F>(predicate);
        let mut i: usize = 0;
        while i < self.deque.len()
            invariant
                forall|item: &T| #[trigger] predicate.requires((item,)),
                i <= self@.len(),
                self@ == self.deque@,
                holds == test::<T, F>(predicate),
                forall|j: int| 0 <= j < i ==> holds(#[trigger] self@[j], false),
            decreases self@.len() - i,
        {
            if predicate(&self.deque[i]) {
                return Some(i);
            }
            i = i + 1;
        }
        None
    }

    /// The end of a queue.
    pub fn free(self) {
    }
}

/// What is pushed at one end is what is popped there, and the queue is as before.
pub proof fn law_push_then_pop<T>(queue: Seq<T>, data: T)
    ensures
        (seq![data] + queue).first() == data,
        (seq![data] + queue).skip(1) == queue,
        queue.push(data).last() == data,
        queue.push(data).drop_last() == queue,
{
    assert((seq![data] + queue).skip(1) =~= queue);
    assert(queue.push(data).drop_last() =~= queue);
}

/// Reversing twice changes nothing.
pub proof fn law_reverse_twice<T>(queue: Seq<T>)
    ensures
        queue.reverse().reverse() == queue,
{
    assert(queue.reverse().reverse() =~= queue);
}

/// A walk over a queue calls the function with each element, from the head to the tail.
pub proof fn law_foreach_reaches_all<T, U, F: Fn(&T, U) -> U>(
    queue: Seq<T>,
    func: F,
    first: U,
    last: U,
    record: spec_fn(U) -> Seq<T>,
)
    requires
        crate::callback::folds(visit(func), queue, first, last),
        forall|item: &T, before: U, after: U| #[trigger]
            func.ensures((item, before), after) ==> record(after) == record(before).push(*item),
    ensures
        record(last) == record(first) + queue,
{
    let step = visit::<T, U, F>(func);
    assert forall|x: T, before: U, after: U| #[trigger] step(x, before, after) implies record(after)
        == record(before).push(x) by {
        assert(func.ensures((&x, before), after));
    }
    crate::callback::law_folds_reach_all(step, queue, first, last, record);
}

/// The end of a queue hands each element to the function, from the head to the tail.
pub proof fn law_free_reaches_all<T, U, F: Fn(T, U) -> U>(
    queue: Seq<T>,
    func: F,
    first: U,
    last: U,
    record: spec_fn(U) -> Seq<T>,
)
    requires
        crate::callback::folds(consume(func), queue, first, last),
        forall|item: T, before: U, after: U| #[trigger]
            func.ensures((item, before), after) ==> record(after) == record(before).push(item),
    ensures
        record(last) == record(first) + queue,
{
    crate::callback::law_folds_reach_all(consume::<T, U, F>(func), queue, first, last, record);
}

/// [`GQueue::find_custom`] finds the first element on which the predicate holds, and none only where
/// it fails on all.
pub proof fn law_find_custom<T, F: Fn(&T) -> bool>(queue: Seq<T>, predicate: F, n: int)
    requires
        crate::callback::finds(test(predicate), queue, n),
    ensures
        0 <= n <= queue.len(),
        n < queue.len() ==> predicate.ensures((&queue[n],), true),
        forall|i: int| 0 <= i < n ==> predicate.ensures((&#[trigger] queue[i],), false),
{
    let holds = test::<T, F>(predicate);
    assert forall|i: int| 0 <= i < n implies predicate.ensures((&#[trigger] queue[i],), false) by {
        assert(holds(queue[i], false));
    }
}

/// [`GQueue::find`] finds the first element that `==`, asked about it and the data looked for, calls
/// equal, and none only where it calls none equal.
pub proof fn law_find<T: PartialEq>(queue: Seq<T>, data: T, n: int)
    requires
        crate::callback::finds(equality(data), queue, n),
    ensures
        0 <= n <= queue.len(),
        n < queue.len() ==> call_ensures(T::eq, (&queue[n], &data), true),
        forall|i: int| 0 <= i < n ==> call_ensures(T::eq, (&#[trigger] queue[i], &data), false),
{
    let holds = equality::<T>(data);
    assert forall|i: int| 0 <= i < n implies call_ensures(
        T::eq,
        (&#[trigger] queue[i], &data),
        false,
    ) by {
        assert(holds(queue[i], false));
    }
}

} // verus!
