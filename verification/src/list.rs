//! Linked lists.
//!
//! A list keeps its nodes in places of its own, and a node names its neighbours
//! by their places. The data of a node is an address that the list only carries.

pub mod slist;

pub use slist::{GSList, SList};

use vstd::prelude::*;
use crate::arena::{place, vacate};
use crate::ptr_array::GPointer;
use crate::sort::merge_sort;

verus! {

/// A node of a doubly linked list.
#[derive(Debug, Clone, Copy, PartialEq, Eq, Structural)]
pub struct GList {
    /// The data.
    pub data: GPointer,
    /// The place of the next node.
    pub next: Option<usize>,
    /// The place of the node before.
    pub prev: Option<usize>,
}

/// A doubly linked list.
pub struct List {
    nodes: Vec<Option<GList>>,
    free: Vec<usize>,
    head: Option<usize>,
    ids: Ghost<Seq<usize>>,
}

/// The data of a node, with its place.
#[derive(Clone, Copy)]
pub struct Held {
    /// The place.
    pub id: usize,
    /// The data.
    pub data: GPointer,
}

/// The place after the `i`-th.
pub open spec fn next_id(ids: Seq<usize>, i: int) -> Option<usize> {
    if 0 <= i + 1 < ids.len() {
        Some(ids[i + 1])
    } else {
        None
    }
}

/// The place before the `i`-th.
pub open spec fn prev_id(ids: Seq<usize>, i: int) -> Option<usize> {
    if 0 <= i - 1 < ids.len() {
        Some(ids[i - 1])
    } else {
        None
    }
}

/// The nodes in the places `ids` are linked in this order, in both directions.
pub open spec fn chained(nodes: Seq<Option<GList>>, ids: Seq<usize>) -> bool {
    &&& ids.no_duplicates()
    &&& forall|i: int|
        0 <= i < ids.len() ==> {
            &&& ids[i] < nodes.len()
            &&& #[trigger] nodes[ids[i] as int] matches Some(node) && node.next == next_id(ids, i)
                && node.prev == prev_id(ids, i)
        }
}

/// The data of the nodes in the places `ids`.
pub open spec fn data_of(nodes: Seq<Option<GList>>, ids: Seq<usize>) -> Seq<GPointer> {
    Seq::new(ids.len(), |i: int| nodes[ids[i] as int]->0.data)
}

/// One call of a function with the data of a node and the data so far.
pub open spec fn visit<U, F: Fn(GPointer, U) -> U>(func: F) -> spec_fn(GPointer, U, U) -> bool {
    |data: GPointer, before: U, after: U| func.ensures((data, before), after)
}

/// `func` may find the data of a node equal to `data`, or not.
pub open spec fn match_test<F: Fn(GPointer, GPointer) -> i32>(func: F, data: GPointer) -> spec_fn(
    GPointer,
    bool,
) -> bool {
    |item: GPointer, holds: bool|
        exists|order: i32| #[trigger] func.ensures((item, data), order) && holds == (order == 0)
}

/// Where an element for `position` goes: to the end for a negative position or one past the end.
pub open spec fn insert_position(len: nat, position: int) -> int {
    if position < 0 || position > len {
        len as int
    } else {
        position
    }
}

/// The position of the first occurrence of `data` from `from` on, or the length.
pub open spec fn first_index(s: Seq<GPointer>, data: GPointer, from: int) -> int
    decreases s.len() - from,
{
    if from < 0 || from >= s.len() {
        s.len() as int
    } else if s[from] == data {
        from
    } else {
        first_index(s, data, from + 1)
    }
}

/// A sequence without the first occurrence of `data`.
pub open spec fn without_first(s: Seq<GPointer>, data: GPointer) -> Seq<GPointer> {
    let i = first_index(s, data, 0);
    if i < s.len() {
        s.remove(i)
    } else {
        s
    }
}

/// A sequence without `data`.
pub open spec fn without_all(s: Seq<GPointer>, data: GPointer) -> Seq<GPointer>
    decreases s.len(),
{
    if s.len() == 0 {
        Seq::empty()
    } else if s[0] == data {
        without_all(s.skip(1), data)
    } else {
        seq![s[0]] + without_all(s.skip(1), data)
    }
}

/// The places of the elements of a sequence that are not `data`, in order.
pub open spec fn places_without(ids: Seq<usize>, s: Seq<GPointer>, data: GPointer) -> Seq<usize>
    decreases s.len(),
{
    if s.len() == 0 {
        Seq::empty()
    } else if s[0] == data {
        places_without(ids.skip(1), s.skip(1), data)
    } else {
        seq![ids[0]] + places_without(ids.skip(1), s.skip(1), data)
    }
}

/// One step of taking `data` out, at position `k`.
pub(crate) proof fn lemma_without_all(s: Seq<GPointer>, data: GPointer, k: int)
    requires
        0 <= k < s.len(),
    ensures
        s[k] == data ==> s.take(k) + without_all(s.skip(k), data) == s.remove(k).take(k)
            + without_all(s.remove(k).skip(k), data),
        s[k] != data ==> s.take(k) + without_all(s.skip(k), data) == s.take(k + 1) + without_all(
            s.skip(k + 1),
            data,
        ),
{
    let rest = without_all(s.skip(k + 1), data);
    assert(s.skip(k).skip(1) =~= s.skip(k + 1));
    if s[k] == data {
        assert(s.remove(k).take(k) =~= s.take(k));
        assert(s.remove(k).skip(k) =~= s.skip(k + 1));
    } else {
        assert(s.take(k + 1) + rest =~= s.take(k) + (seq![s[k]] + rest));
    }
}

/// A node put in at position `k`.
proof fn lemma_inserted(
    before: Seq<Option<GList>>,
    ids: Seq<usize>,
    after: Seq<Option<GList>>,
    k: int,
    new: usize,
    data: GPointer,
)
    requires
        chained(before, ids),
        0 <= k <= ids.len(),
        new < after.len(),
        before.len() <= after.len(),
        new < before.len() ==> before[new as int] is None,
        after[new as int] == Some(
            GList { data, next: next_id(ids, k - 1), prev: prev_id(ids, k) },
        ),
        forall|i: int|
            0 <= i < ids.len() ==> #[trigger] after[ids[i] as int] == Some(
                GList {
                    data: before[ids[i] as int]->0.data,
                    next: if i == k - 1 {
                        Some(new)
                    } else {
                        next_id(ids, i)
                    },
                    prev: if i == k {
                        Some(new)
                    } else {
                        prev_id(ids, i)
                    },
                },
            ),
    ensures
        chained(after, ids.insert(k, new)),
        data_of(after, ids.insert(k, new)) == data_of(before, ids).insert(k, data),
{
    let now = ids.insert(k, new);
    assert forall|i: int| 0 <= i < now.len() implies {
        &&& now[i] < after.len()
        &&& #[trigger] after[now[i] as int] matches Some(node) && node.next == next_id(now, i) && node.prev
            == prev_id(now, i) && node.data == data_of(before, ids).insert(k, data)[i]
    } by {
        if i < k {
            assert(now[i] == ids[i]);
            assert(before[ids[i] as int] is Some);
            assert(after[ids[i] as int] is Some);
        } else if i > k {
            assert(now[i] == ids[i - 1]);
            assert(before[ids[i - 1] as int] is Some);
            assert(after[ids[i - 1] as int] is Some);
        }
    }
    assert(now.no_duplicates()) by {
        assert forall|i: int, j: int|
            0 <= i < now.len() && 0 <= j < now.len() && i != j implies now[i] != now[j] by {
            let a = if i > k {
                i - 1
            } else {
                i
            };
            let b = if j > k {
                j - 1
            } else {
                j
            };
            if i != k {
                assert(now[i] == ids[a]);
                assert(before[ids[a] as int] is Some);
            }
            if j != k {
                assert(now[j] == ids[b]);
                assert(before[ids[b] as int] is Some);
            }
        }
    }
    assert(data_of(after, now) =~= data_of(before, ids).insert(k, data)) by {
        assert forall|i: int| 0 <= i < now.len() implies data_of(after, now)[i] == data_of(
            before,
            ids,
        ).insert(k, data)[i] by {
            assert(after[now[i] as int] is Some);
        }
    }
}

/// A node taken out.
proof fn lemma_removed(
    before: Seq<Option<GList>>,
    ids: Seq<usize>,
    after: Seq<Option<GList>>,
    k: int,
)
    requires
        chained(before, ids),
        0 <= k < ids.len(),
        after.len() == before.len(),
        forall|i: int|
            0 <= i < ids.len() && i != k ==> #[trigger] after[ids[i] as int] == Some(
                GList {
                    data: before[ids[i] as int]->0.data,
                    next: if i == k - 1 {
                        next_id(ids, k)
                    } else {
                        next_id(ids, i)
                    },
                    prev: if i == k + 1 {
                        prev_id(ids, k)
                    } else {
                        prev_id(ids, i)
                    },
                },
            ),
    ensures
        chained(after, ids.remove(k)),
        data_of(after, ids.remove(k)) == data_of(before, ids).remove(k),
{
    let now = ids.remove(k);
    assert forall|i: int| 0 <= i < now.len() implies {
        &&& now[i] < after.len()
        &&& #[trigger] after[now[i] as int] matches Some(node) && node.next == next_id(now, i) && node.prev
            == prev_id(now, i) && node.data == data_of(before, ids).remove(k)[i]
    } by {
        let a = if i >= k {
            i + 1
        } else {
            i
        };
        assert(now[i] == ids[a]);
        assert(before[ids[a] as int] is Some);
        assert(after[ids[a] as int] is Some);
    }
    assert(now.no_duplicates()) by {
        assert forall|i: int, j: int|
            0 <= i < now.len() && 0 <= j < now.len() && i != j implies now[i] != now[j] by {
            let a = if i >= k {
                i + 1
            } else {
                i
            };
            let b = if j >= k {
                j + 1
            } else {
                j
            };
            assert(now[i] == ids[a] && now[j] == ids[b]);
        }
    }
    assert(data_of(after, now) =~= data_of(before, ids).remove(k)) by {
        assert forall|i: int| 0 <= i < now.len() implies data_of(after, now)[i] == data_of(
            before,
            ids,
        ).remove(k)[i] by {
            assert(after[now[i] as int] is Some);
        }
    }
}

/// One step of taking the places of `data` out, at position `k`.
pub(crate) proof fn lemma_places_without(
    ids: Seq<usize>,
    s: Seq<GPointer>,
    data: GPointer,
    k: int,
)
    requires
        0 <= k < s.len(),
        ids.len() == s.len(),
    ensures
        s[k] == data ==> ids.take(k) + places_without(ids.skip(k), s.skip(k), data)
            == ids.remove(k).take(k) + places_without(
            ids.remove(k).skip(k),
            s.remove(k).skip(k),
            data,
        ),
        s[k] != data ==> ids.take(k) + places_without(ids.skip(k), s.skip(k), data) == ids.take(
            k + 1,
        ) + places_without(ids.skip(k + 1), s.skip(k + 1), data),
{
    let rest = places_without(ids.skip(k + 1), s.skip(k + 1), data);
    assert(s.skip(k).skip(1) =~= s.skip(k + 1));
    assert(ids.skip(k).skip(1) =~= ids.skip(k + 1));
    if s[k] == data {
        assert(ids.remove(k).take(k) =~= ids.take(k));
        assert(ids.remove(k).skip(k) =~= ids.skip(k + 1));
        assert(s.remove(k).skip(k) =~= s.skip(k + 1));
    } else {
        assert(ids.take(k + 1) + rest =~= ids.take(k) + (seq![ids[k]] + rest));
    }
}

impl View for List {
    type V = Seq<GPointer>;

    /// The data of the nodes, in order.
    open spec fn view(&self) -> Seq<GPointer> {
        Seq::new(self.ids().len(), |i: int| self.node_at(self.ids()[i]).data)
    }
}

impl Default for List {
    fn default() -> (list: Self)
        ensures
            list.wf(),
            list.ids() == Seq::<usize>::empty(),
    {
        List { nodes: Vec::new(), free: Vec::new(), head: None, ids: Ghost(Seq::empty()) }
    }
}

impl List {
    /// The places of the nodes, in order.
    pub closed spec fn ids(&self) -> Seq<usize> {
        self.ids@
    }

    /// The node in a place.
    pub closed spec fn node_at(&self, id: usize) -> GList {
        self.nodes@[id as int]->0
    }

    /// The invariant of a list: its nodes are linked in order, in both directions.
    pub closed spec fn wf(&self) -> bool {
        &&& chained(self.nodes@, self.ids@)
        &&& crate::arena::free_places(self.nodes@, self.free@)
        &&& self.head == next_id(self.ids@, -1)
    }

    /// An empty list.
    pub fn new() -> (list: Self)
        ensures
            list.wf(),
            list.ids() == Seq::<usize>::empty(),
            list@ == Seq::<GPointer>::empty(),
    {
        let list = List { nodes: Vec::new(), free: Vec::new(), head: None, ids: Ghost(Seq::empty()) };
        assert(list@ =~= Seq::<GPointer>::empty());
        list
    }

    /// The place of the first node.
    pub fn as_ptr(&self) -> (head: Option<usize>)
        requires
            self.wf(),
        ensures
            head == next_id(self.ids(), -1),
    {
        self.head
    }

    /// The node in a place.
    pub fn node(&self, id: usize) -> (node: &GList)
        requires
            self.wf(),
            self.ids().contains(id),
        ensures
            *node == self.node_at(id),
            forall|i: int|
                0 <= i < self.ids().len() && #[trigger] self.ids()[i] == id ==> node.next
                    == next_id(self.ids(), i) && node.prev == prev_id(self.ids(), i) && node.data
                    == self@[i],
    {
        proof {
            let i = choose|i: int| 0 <= i < self.ids@.len() && self.ids@[i] == id;
            assert(self.nodes@[self.ids@[i] as int] is Some);
        }
        self.nodes[id].as_ref().unwrap()
    }

    /// Give the nodes and the place of the first away.
    pub fn into_ptr(self) -> (parts: (Vec<Option<GList>>, Option<usize>))
        requires
            self.wf(),
        ensures
            chained(parts.0@, self.ids()),
            parts.1 == next_id(self.ids(), -1),
            data_of(parts.0@, self.ids()) == self@,
    {
        assert(data_of(self.nodes@, self.ids@) =~= self@);
        (self.nodes, self.head)
    }

    /// A list of nodes that are linked in order, from the place of the first on.
    pub fn from_ptr(nodes: Vec<Option<GList>>, head: Option<usize>) -> (list: Self)
        requires
            exists|ids: Seq<usize>| #[trigger] chained(nodes@, ids) && head == next_id(ids, -1),
        ensures
            list.wf(),
            chained(nodes@, list.ids()),
            head == next_id(list.ids(), -1),
            list@ == data_of(nodes@, list.ids()),
    {
        let ghost ids = choose|ids: Seq<usize>| #[trigger]
            chained(nodes@, ids) && head == next_id(ids, -1);
        let list = List { nodes, free: Vec::new(), head, ids: Ghost(ids) };
        assert(list@ =~= data_of(nodes@, ids));
        list
    }

    /// Whether the list is empty.
    pub fn is_empty(&self) -> (empty: bool)
        requires
            self.wf(),
        ensures
            empty == (self@.len() == 0),
    {
        self.head.is_none()
    }

    fn get(&self, id: usize) -> (node: GList)
        requires
            id < self.nodes@.len(),
            self.nodes@[id as int] is Some,
        ensures
            node == self.nodes@[id as int]->0,
    {
        *self.nodes[id].as_ref().unwrap()
    }

    fn set_next(&mut self, id: usize, next: Option<usize>)
        requires
            id < old(self).nodes@.len(),
            old(self).nodes@[id as int] is Some,
            crate::arena::free_places(old(self).nodes@, old(self).free@),
        ensures
            crate::arena::free_places(final(self).nodes@, final(self).free@),
            final(self).head == old(self).head,
            final(self).ids@ == old(self).ids@,
            final(self).nodes@ == old(self).nodes@.update(
                id as int,
                Some(GList { next, ..old(self).nodes@[id as int]->0 }),
            ),
    {
        let node: GList = self.get(id);
        self.nodes[id] = Some(GList { data: node.data, next, prev: node.prev });
    }

    fn set_prev(&mut self, id: usize, prev: Option<usize>)
        requires
            id < old(self).nodes@.len(),
            old(self).nodes@[id as int] is Some,
            crate::arena::free_places(old(self).nodes@, old(self).free@),
        ensures
            crate::arena::free_places(final(self).nodes@, final(self).free@),
            final(self).head == old(self).head,
            final(self).ids@ == old(self).ids@,
            final(self).nodes@ == old(self).nodes@.update(
                id as int,
                Some(GList { prev, ..old(self).nodes@[id as int]->0 }),
            ),
    {
        let node: GList = self.get(id);
        self.nodes[id] = Some(GList { data: node.data, next: node.next, prev });
    }

    /// The place of the last node.
    fn last(&self) -> (last: Option<usize>)
        requires
            self.wf(),
        ensures
            last == prev_id(self.ids@, self.ids@.len() as int),
    {
        let mut last: Option<usize> = None;
        let mut current: Option<usize> = self.head;
        let ghost mut k: int = 0;
        while current.is_some()
            invariant
                self.wf(),
                0 <= k <= self.ids@.len(),
                current == next_id(self.ids@, k - 1),
                last == prev_id(self.ids@, k),
            decreases self.ids@.len() - k,
        {
            let id: usize = current.unwrap();
            assert(self.ids@[k] == id);
            last = Some(id);
            current = self.get(id).next;
            proof {
                k = k + 1;
            }
        }
        last
    }

    /// Link a node in between two neighbours, at position `k`.
    fn link_in(
        &mut self,
        prev: Option<usize>,
        next: Option<usize>,
        data: GPointer,
        Ghost(k): Ghost<int>,
    ) -> (new: usize)
        requires
            old(self).wf(),
            0 <= k <= old(self).ids@.len(),
            prev == prev_id(old(self).ids@, k),
            next == next_id(old(self).ids@, k - 1),
        ensures
            final(self).wf(),
            final(self).ids@ == old(self).ids@.insert(k, new),
            final(self)@ == old(self)@.insert(k, data),
    {
        let ghost ids = self.ids@;
        let ghost before = self.nodes@;
        let new: usize = place(&mut self.nodes, &mut self.free, GList { data, next, prev });
        match prev {
            Some(id) => {
                assert(ids[k - 1] == id && before[ids[k - 1] as int] is Some);
                self.set_next(id, Some(new));
            },
            None => {
                self.head = Some(new);
            },
        }
        if let Some(id) = next {
            assert(ids[k] == id && before[ids[k] as int] is Some);
            self.set_prev(id, Some(new));
        }
        self.ids = Ghost(ids.insert(k, new));
        proof {
            assert forall|i: int| 0 <= i < ids.len() implies #[trigger] self.nodes@[ids[i] as int]
                == Some(
                GList {
                    data: before[ids[i] as int]->0.data,
                    next: if i == k - 1 {
                        Some(new)
                    } else {
                        next_id(ids, i)
                    },
                    prev: if i == k {
                        Some(new)
                    } else {
                        prev_id(ids, i)
                    },
                },
            ) by {
                assert(before[ids[i] as int] is Some);
            }
            lemma_inserted(before, ids, self.nodes@, k, new, data);
            assert(self@ =~= data_of(self.nodes@, self.ids@));
            assert(old(self)@ =~= data_of(before, ids));
        }
        new
    }

    /// Add a node at the end.
    pub fn append(&mut self, data: GPointer)
        requires
            old(self).wf(),
        ensures
            final(self).wf(),
            final(self)@ == old(self)@.push(data),
            final(self).ids().drop_last() == old(self).ids(),
    {
        let last: Option<usize> = self.last();
        self.link_in(last, None, data, Ghost(self.ids@.len() as int));
        proof {
            assert(self@ =~= old(self)@.push(data));
            assert(self.ids@.drop_last() =~= old(self).ids@);
        }
    }

    /// Add a node at the start.
    pub fn prepend(&mut self, data: GPointer)
        requires
            old(self).wf(),
        ensures
            final(self).wf(),
            final(self)@ == seq![data] + old(self)@,
            final(self).ids().skip(1) == old(self).ids(),
    {
        let head: Option<usize> = self.head;
        self.link_in(None, head, data, Ghost(0));
        proof {
            assert(self@ =~= seq![data] + old(self)@);
            assert(self.ids@.skip(1) =~= old(self).ids@);
        }
    }

    /// Add a node before the node at `position`; at the end where the position is negative or
    /// there is no such node.
    pub fn insert(&mut self, data: GPointer, position: i32)
        requires
            old(self).wf(),
        ensures
            final(self).wf(),
            ({
                let i = insert_position(old(self)@.len(), position as int);
                &&& final(self)@ == old(self)@.insert(i, data)
                &&& final(self).ids().remove(i) == old(self).ids()
            }),
            0 <= position <= old(self)@.len() ==> final(self)@ == old(self)@.insert(
                position as int,
                data,
            ),
            position < 0 || position > old(self)@.len() ==> final(self)@ == old(self)@.push(data),
    {
        if position < 0 {
            self.append(data);
        } else if position == 0 {
            self.prepend(data);
        } else {
            match self.nth_id(position as u32) {
                None => self.append(data),
                Some(id) => {
                    assert(self.ids@[position as int] == id);
                    let prev: Option<usize> = self.get(id).prev;
                    self.link_in(prev, Some(id), data, Ghost(position as int));
                },
            }
        }
        proof {
            let i = insert_position(old(self)@.len(), position as int);
            assert(self@ =~= old(self)@.insert(i, data));
            law_insert_lands(old(self)@, data, position as int);
            assert(self.ids@.remove(i) =~= old(self).ids@);
        }
    }

    /// Take the node in a place out of the list.
    fn remove_link(&mut self, id: usize, Ghost(k): Ghost<int>)
        requires
            old(self).wf(),
            0 <= k < old(self).ids@.len(),
            old(self).ids@[k] == id,
        ensures
            final(self).wf(),
            final(self).ids@ == old(self).ids@.remove(k),
            final(self)@ == old(self)@.remove(k),
    {
        let ghost ids = self.ids@;
        let ghost before = self.nodes@;
        assert(before[ids[k] as int] is Some);
        let node: GList = self.get(id);
        if let Some(prev) = node.prev {
            assert(ids[k - 1] == prev && before[ids[k - 1] as int] is Some);
            self.set_next(prev, node.next);
        } else {
            self.head = node.next;
        }
        if let Some(next) = node.next {
            assert(ids[k + 1] == next && before[ids[k + 1] as int] is Some);
            self.set_prev(next, node.prev);
        }
        vacate(&mut self.nodes, &mut self.free, id);
        self.ids = Ghost(ids.remove(k));
        proof {
            assert forall|i: int| 0 <= i < ids.len() && i != k implies #[trigger] self.nodes@[ids[i] as int]
                == Some(
                GList {
                    data: before[ids[i] as int]->0.data,
                    next: if i == k - 1 {
                        next_id(ids, k)
                    } else {
                        next_id(ids, i)
                    },
                    prev: if i == k + 1 {
                        prev_id(ids, k)
                    } else {
                        prev_id(ids, i)
                    },
                },
            ) by {
                assert(before[ids[i] as int] is Some);
                assert(ids[i] != ids[k]);
            }
            lemma_removed(before, ids, self.nodes@, k);
            assert(self@ =~= data_of(self.nodes@, self.ids@));
            assert(old(self)@ =~= data_of(before, ids));
        }
    }

    /// Remove the first node with this data.
    pub fn remove(&mut self, data: GPointer)
        requires
            old(self).wf(),
        ensures
            final(self).wf(),
            final(self)@ == without_first(old(self)@, data),
            final(self).ids() == ({
                let i = first_index(old(self)@, data, 0);
                if i < old(self)@.len() {
                    old(self).ids().remove(i)
                } else {
                    old(self).ids()
                }
            }),
    {
        let mut current: Option<usize> = self.head;
        let ghost mut k: int = 0;
        while current.is_some()
            invariant
                self.wf(),
                *self == *old(self),
                0 <= k <= self.ids@.len(),
                current == next_id(self.ids@, k - 1),
                first_index(self@, data, 0) == first_index(self@, data, k),
            decreases self.ids@.len() - k,
        {
            let id: usize = current.unwrap();
            assert(self.ids@[k] == id);
            let node: GList = self.get(id);
            assert(self@[k] == node.data);
            if node.data == data {
                self.remove_link(id, Ghost(k));
                return;
            }
            current = node.next;
            proof {
                k = k + 1;
            }
        }
    }

    /// Remove all nodes with this data.
    pub fn remove_all(&mut self, data: GPointer)
        requires
            old(self).wf(),
        ensures
            final(self).wf(),
            final(self)@ == without_all(old(self)@, data),
            final(self).ids() == places_without(old(self).ids(), old(self)@, data),
    {
        let ghost all = self@;
        let ghost places = self.ids@;
        let mut current: Option<usize> = self.head;
        let ghost mut k: int = 0;
        proof {
            assert(places.skip(0) =~= places && self@.skip(0) =~= all);
            assert(places.take(0) + places_without(places.skip(0), self@.skip(0), data)
                =~= places_without(places, all, data));
            assert(self@.take(0) + without_all(self@.skip(0), data) =~= without_all(all, data)) by {
                assert(self@.skip(0) =~= all);
            }
        }
        while current.is_some()
            invariant
                self.wf(),
                0 <= k <= self.ids@.len(),
                self@.len() == self.ids@.len(),
                current == next_id(self.ids@, k - 1),
                self@.take(k) + without_all(self@.skip(k), data) == without_all(all, data),
                self.ids@.take(k) + places_without(self.ids@.skip(k), self@.skip(k), data)
                    == places_without(places, all, data),
            decreases self.ids@.len() - k,
        {
            let id: usize = current.unwrap();
            assert(self.ids@[k] == id);
            let node: GList = self.get(id);
            assert(self@[k] == node.data);
            let ghost before = self@;
            proof {
                lemma_without_all(before, data, k);
                lemma_places_without(self.ids@, before, data, k);
            }
            if node.data == data {
                self.remove_link(id, Ghost(k));
            } else {
                proof {
                    k = k + 1;
                }
            }
            current = node.next;
        }
        proof {
            assert(self@.skip(k) =~= Seq::<GPointer>::empty());
            assert(self@.take(k) + Seq::<GPointer>::empty() =~= self@);
            assert(self.ids@.take(k) + Seq::<usize>::empty() =~= self.ids@);
        }
    }

    /// The number of nodes.
    pub fn length(&self) -> (length: u32)
        requires
            self.wf(),
            self@.len() <= u32::MAX,
        ensures
            length == self@.len(),
    {
        let mut length: u32 = 0;
        let mut current: Option<usize> = self.head;
        while current.is_some()
            invariant
                self.wf(),
                length <= self.ids@.len() <= u32::MAX,
                current == next_id(self.ids@, length - 1),
            decreases self.ids@.len() - length,
        {
            let id: usize = current.unwrap();
            assert(self.ids@[length as int] == id);
            current = self.get(id).next;
            length = length + 1;
        }
        length
    }

    fn nth_id(&self, n: u32) -> (id: Option<usize>)
        requires
            self.wf(),
        ensures
            id == next_id(self.ids@, n - 1),
    {
        let mut current: Option<usize> = self.head;
        let mut k: u32 = 0;
        while k < n && current.is_some()
            invariant
                self.wf(),
                k <= n,
                k <= self.ids@.len(),
                current == next_id(self.ids@, k - 1),
            decreases n - k,
        {
            let id: usize = current.unwrap();
            assert(self.ids@[k as int] == id);
            current = self.get(id).next;
            k = k + 1;
        }
        current
    }

    /// The node at position `n`.
    pub fn nth(&self, n: u32) -> (node: Option<&GList>)
        requires
            self.wf(),
        ensures
            node is Some == (n < self@.len()),
            node matches Some(g) ==> *g == self.node_at(self.ids()[n as int]) && g.data
                == self@[n as int],
    {
        match self.nth_id(n) {
            Some(id) => {
                assert(self.ids@[n as int] == id);
                Some(self.nodes[id].as_ref().unwrap())
            },
            None => None,
        }
    }

    /// The data of the node at position `n`; 0 where there is none.
    pub fn nth_data(&self, n: u32) -> (data: GPointer)
        requires
            self.wf(),
        ensures
            data == (if n < self@.len() {
                self@[n as int]
            } else {
                0
            }),
    {
        match self.nth(n) {
            Some(node) => node.data,
            None => 0,
        }
    }

    /// The first node with this data.
    pub fn find(&self, data: GPointer) -> (node: Option<&GList>)
        requires
            self.wf(),
        ensures
            ({
                let i = first_index(self@, data, 0);
                &&& node is Some == (i < self@.len())
                &&& node matches Some(g) ==> *g == self.node_at(self.ids()[i]) && g.data == data
            }),
    {
        let mut current: Option<usize> = self.head;
        let ghost mut k: int = 0;
        while current.is_some()
            invariant
                self.wf(),
                0 <= k <= self.ids@.len(),
                current == next_id(self.ids@, k - 1),
                first_index(self@, data, 0) == first_index(self@, data, k),
            decreases self.ids@.len() - k,
        {
            let id: usize = current.unwrap();
            assert(self.ids@[k] == id && self.nodes@[self.ids@[k] as int] is Some);
            let node: &GList = self.nodes[id].as_ref().unwrap();
            assert(self@[k] == node.data);
            if node.data == data {
                return Some(node);
            }
            current = node.next;
            proof {
                k = k + 1;
            }
        }
        None
    }

    /// The first node that `func`, called with the node's data and `data`, finds equal: it returns
    /// zero.
    pub fn find_custom<F: Fn(GPointer, GPointer) -> i32>(&self, data: GPointer, func: F) -> (node:
        Option<&GList>)
        requires
            self.wf(),
            forall|a: GPointer, b: GPointer| #[trigger] func.requires((a, b)),
        ensures
            exists|i: int| #[trigger]
                crate::callback::finds(match_test(func, data), self@, i) && {
                    &&& node is Some == (i < self@.len())
                    &&& node matches Some(g) ==> *g == self.node_at(self.ids()[i]) && g.data
                        == self@[i]
                },
    {
        let ghost holds = match_test::<F>(func, data);
        let mut current: Option<usize> = self.head;
        let ghost mut k: int = 0;
        while current.is_some()
            invariant
                self.wf(),
                forall|a: GPointer, b: GPointer| #[trigger] func.requires((a, b)),
                holds == match_test::<F>(func, data),
                0 <= k <= self.ids@.len(),
                current == next_id(self.ids@, k - 1),
                forall|j: int| 0 <= j < k ==> holds(#[trigger] self@[j], false),
            decreases self.ids@.len() - k,
        {
            let id: usize = current.unwrap();
            assert(self.ids@[k] == id && self.nodes@[self.ids@[k] as int] is Some);
            let node: &GList = self.nodes[id].as_ref().unwrap();
            assert(self@[k] == node.data);
            let order: i32 = func(node.data, data);
            assert(holds(self@[k], order == 0));
            if order == 0 {
                assert(crate::callback::finds(holds, self@, k));
                return Some(node);
            }
            current = node.next;
            proof {
                k = k + 1;
            }
        }
        assert(crate::callback::finds(holds, self@, k));
        None
    }

    /// Call `func` with the data of each node and the data so far, in order; the data is what the
    /// call before returned, `user_data` at first. Returns the last data.
    pub fn foreach<U, F: Fn(GPointer, U) -> U>(&self, func: F, user_data: U) -> (result: U)
        requires
            self.wf(),
            forall|item: GPointer, data: U| #[trigger] func.requires((item, data)),
        ensures
            crate::callback::folds(visit(func), self@, user_data, result),
    {
        let ghost step = visit::<U, F>(func);
        let mut now: U = user_data;
        let mut current: Option<usize> = self.head;
        let ghost mut k: int = 0;
        proof {
            crate::callback::lemma_folds_empty::<GPointer, U>(step, user_data);
            assert(self@.take(0) =~= Seq::<GPointer>::empty());
        }
        while current.is_some()
            invariant
                self.wf(),
                forall|item: GPointer, data: U| #[trigger] func.requires((item, data)),
                step == visit::<U, F>(func),
                0 <= k <= self.ids@.len(),
                current == next_id(self.ids@, k - 1),
                crate::callback::folds(step, self@.take(k), user_data, now),
            decreases self.ids@.len() - k,
        {
            let id: usize = current.unwrap();
            assert(self.ids@[k] == id);
            let node: GList = self.get(id);
            let ghost before = now;
            now = func(node.data, now);
            proof {
                assert(self@[k] == node.data);
                assert(step(self@[k], before, now));
                crate::callback::lemma_folds_push(
                    step,
                    self@.take(k),
                    self@[k],
                    user_data,
                    before,
                    now,
                );
                assert(self@.take(k).push(self@[k]) =~= self@.take(k + 1));
                k = k + 1;
            }
            current = node.next;
        }
        assert(self@.take(k) =~= self@);
        now
    }

    /// A list with the same data.
    pub fn copy(&self) -> (copy: Self)
        requires
            self.wf(),
        ensures
            copy.wf(),
            copy@ == self@,
    {
        let mut copy = List::new();
        copy.append_all(self);
        assert(copy@ =~= self@);
        copy
    }

    /// Add nodes with the data of another list at the end.
    fn append_all(&mut self, other: &List)
        requires
            old(self).wf(),
            other.wf(),
        ensures
            final(self).wf(),
            final(self)@ == old(self)@ + other@,
            final(self).ids().take(old(self).ids().len() as int) == old(self).ids(),
    {
        let ghost start = self@;
        let ghost places = self.ids@;
        let mut last: Option<usize> = self.last();
        let mut current: Option<usize> = other.head;
        let ghost mut k: int = 0;
        assert(start + other@.take(0) =~= start);
        assert(self.ids@.take(places.len() as int) =~= places);
        while current.is_some()
            invariant
                self.wf(),
                other.wf(),
                0 <= k <= other.ids@.len(),
                current == next_id(other.ids@, k - 1),
                last == prev_id(self.ids@, self.ids@.len() as int),
                self@ == start + other@.take(k),
                places.len() <= self.ids@.len(),
                self.ids@.take(places.len() as int) == places,
            decreases other.ids@.len() - k,
        {
            let id: usize = current.unwrap();
            assert(other.ids@[k] == id);
            let node: GList = other.get(id);
            let ghost before = self.ids@;
            let new: usize = self.link_in(last, None, node.data, Ghost(self.ids@.len() as int));
            proof {
                assert(self.ids@.take(places.len() as int) =~= before.take(places.len() as int));
                assert(other@[k] == node.data);
                assert(self@ =~= start + other@.take(k + 1));
                k = k + 1;
            }
            last = Some(new);
            current = node.next;
        }
        assert(other@.take(k) =~= other@);
    }

    /// Add the nodes of another list at the end.
    pub fn concat(&mut self, other: Self)
        requires
            old(self).wf(),
            other.wf(),
        ensures
            final(self).wf(),
            final(self)@ == old(self)@ + other@,
            final(self).ids().take(old(self).ids().len() as int) == old(self).ids(),
    {
        self.append_all(&other);
    }

    /// Reverse the order of the nodes.
    pub fn reverse(&mut self)
        requires
            old(self).wf(),
        ensures
            final(self).wf(),
            final(self)@ == old(self)@.reverse(),
            final(self).ids() == old(self).ids().reverse(),
    {
        let ghost ids = self.ids@;
        let ghost before = self.nodes@;
        let mut last: Option<usize> = None;
        let mut current: Option<usize> = self.head;
        let ghost mut k: int = 0;
        while current.is_some()
            invariant
                chained(before, ids),
                crate::arena::free_places(self.nodes@, self.free@),
                self.ids@ == ids,
                self.nodes@.len() == before.len(),
                0 <= k <= ids.len(),
                current == next_id(ids, k - 1),
                last == prev_id(ids, k),
                forall|i: int|
                    0 <= i < ids.len() ==> {
                        &&& self.nodes@[(#[trigger] ids[i]) as int] is Some
                        &&& self.nodes@[ids[i] as int]->0.data == before[ids[i] as int]->0.data
                        &&& i < k ==> self.nodes@[ids[i] as int]->0.next == prev_id(ids, i)
                            && self.nodes@[ids[i] as int]->0.prev == next_id(ids, i)
                        &&& i >= k ==> self.nodes@[ids[i] as int] == before[ids[i] as int]
                    },
            decreases ids.len() - k,
        {
            let id: usize = current.unwrap();
            assert(ids[k] == id && before[ids[k] as int] is Some);
            assert(before[ids[k] as int] is Some);
            let node: GList = self.get(id);
            self.nodes[id] = Some(GList { data: node.data, next: node.prev, prev: node.next });
            last = Some(id);
            current = node.next;
            proof {
                assert forall|i: int| 0 <= i < ids.len() && i != k implies (#[trigger] ids[i])
                    != id by {
                    assert(ids[i] != ids[k]);
                }
                k = k + 1;
            }
        }
        self.head = last;
        self.ids = Ghost(ids.reverse());
        proof {
            let after = self.ids@;
            let n = ids.len();
            assert forall|i: int| 0 <= i < after.len() implies {
                &&& after[i] < self.nodes@.len()
                &&& #[trigger] self.nodes@[after[i] as int] matches Some(node) && node.next == next_id(after, i)
                    && node.prev == prev_id(after, i)
            } by {
                assert(after[i] == ids[n - 1 - i]);
                assert(before[ids[n - 1 - i] as int] is Some);
            }
            assert(after.no_duplicates()) by {
                assert forall|i: int, j: int|
                    0 <= i < after.len() && 0 <= j < after.len() && i != j implies after[i]
                    != after[j] by {
                    assert(after[i] == ids[n - 1 - i] && after[j] == ids[n - 1 - j]);
                }
            }
            assert(self@ =~= old(self)@.reverse()) by {
                assert forall|i: int| 0 <= i < after.len() implies self@[i] == old(
                    self,
                )@.reverse()[i] by {
                    assert(after[i] == ids[n - 1 - i]);
                }
            }
        }
    }

    /// The nodes with their places, in order.
    fn held(&self) -> (held: Vec<Held>)
        requires
            self.wf(),
        ensures
            held@.len() == self.ids@.len(),
            forall|i: int|
                0 <= i < held@.len() ==> (#[trigger] held@[i]).id == self.ids@[i] && held@[i].data
                    == self@[i],
    {
        let mut held: Vec<Held> = Vec::new();
        let mut current: Option<usize> = self.head;
        while current.is_some()
            invariant
                self.wf(),
                held@.len() <= self.ids@.len(),
                current == next_id(self.ids@, held@.len() - 1),
                forall|i: int|
                    0 <= i < held@.len() ==> (#[trigger] held@[i]).id == self.ids@[i]
                        && held@[i].data == self@[i],
            decreases self.ids@.len() - held@.len(),
        {
            let id: usize = current.unwrap();
            assert(self.ids@[held@.len() as int] == id);
            let node: GList = self.get(id);
            held.push(Held { id, data: node.data });
            current = node.next;
        }
        held
    }

    /// Sort the nodes by their data. The sort is stable: nodes that the order does not tell apart
    /// stay in their order.
    pub fn sort<F: Fn(GPointer, GPointer) -> i32>(&mut self, compare_func: F)
        requires
            old(self).wf(),
            crate::sort::callable(compare_func),
        ensures
            final(self).wf(),
            forall|ord: spec_fn(GPointer, GPointer) -> int| #[trigger]
                crate::sort::answers_by(compare_func, ord) ==> final(self)@
                    == crate::sort::merge_sorted(ord, old(self)@),
            forall|ord: spec_fn(GPointer, GPointer) -> int| #[trigger]
                crate::sort::answers_by(compare_func, ord) ==> final(self).ids()
                    == place_of(
                    crate::sort::merge_sorted(
                        held_order(ord),
                        held_of(old(self).ids(), old(self)@),
                    ),
                ),
            final(self).ids().to_multiset() == old(self).ids().to_multiset(),
            forall|id: usize| #[trigger]
                final(self).ids().contains(id) ==> old(self).ids().contains(id)
                    && final(self).node_at(id).data == old(self).node_at(id).data,
    {
        let held = self.held();
        let compare: &F = &compare_func;
        let by_data = |a: Held, b: Held| -> (order: i32)
            requires
                compare.requires((a.data, b.data)),
            ensures
                compare.ensures((a.data, b.data), order),
            { compare(a.data, b.data) };
        let sorted = merge_sort(&held, &by_data);
        let ghost ids = self.ids@;
        let ghost before = self.nodes@;
        let ghost now = place_of(sorted@);
        proof {
            lemma_sorted_held(held@, ids, sorted@);
            assert(crate::sort::mapped(held@, held_data()) =~= self@);
            assert(held@ =~= held_of(ids, self@));
            assert forall|under: spec_fn(GPointer, GPointer) -> int| #[trigger]
                crate::sort::answers_by(compare_func, under) implies crate::sort::mapped(
                sorted@,
                held_data(),
            ) == crate::sort::merge_sorted(under, self@) && sorted@
                == crate::sort::merge_sorted(held_order(under), held@) by {
                let ord = held_order(under);
                assert(crate::sort::answers_by(by_data, ord));
                crate::sort::lemma_sorted_mapped(ord, under, held_data(), held@);
            }
        }
        let mut i: usize = 0;
        while i < sorted.len()
            invariant
                chained(before, ids),
                crate::arena::free_places(self.nodes@, self.free@),
                self.nodes@.len() == before.len(),
                now == place_of(sorted@),
                now.no_duplicates(),
                i <= sorted@.len(),
                forall|j: int|
                    0 <= j < now.len() ==> (#[trigger] now[j]) < before.len()
                        && self.nodes@[now[j] as int] is Some,
                forall|j: int|
                    0 <= j < i ==> #[trigger] self.nodes@[now[j] as int] == Some(
                        GList {
                            data: sorted@[j].data,
                            next: next_id(now, j),
                            prev: prev_id(now, j),
                        },
                    ),
            decreases sorted@.len() - i,
        {
            let next: Option<usize> = if i + 1 < sorted.len() {
                Some(sorted[i + 1].id)
            } else {
                None
            };
            let prev: Option<usize> = if i > 0 {
                Some(sorted[i - 1].id)
            } else {
                None
            };
            let id: usize = sorted[i].id;
            assert(now[i as int] == id && self.nodes@[now[i as int] as int] is Some);
            assert(i > 0 ==> now[i - 1] == prev->0);
            assert(i + 1 < sorted.len() ==> now[i + 1] == next->0);
            let data: GPointer = sorted[i].data;
            let ghost linked_before = self.nodes@;
            self.nodes[id] = Some(GList { data, next, prev });
            proof {
                assert forall|j: int| 0 <= j <= i implies #[trigger] self.nodes@[now[j] as int]
                    == Some(
                    GList {
                        data: sorted@[j].data,
                        next: next_id(now, j),
                    prev: prev_id(now, j),
                    },
                ) by {
                    if j < i {
                        assert(now[j] != now[i as int]);
                        assert(linked_before[now[j] as int] is Some);
                    }
                }
            }
            i = i + 1;
        }
        self.head = if sorted.len() > 0 {
            Some(sorted[0].id)
        } else {
            None
        };
        self.ids = Ghost(now);
        proof {
            assert(now.len() > 0 ==> now[0] == sorted@[0].id);
            assert(self@ =~= crate::sort::mapped(sorted@, held_data())) by {
                assert forall|j: int| 0 <= j < now.len() implies self@[j] == sorted@[j].data by {
                    assert(self.nodes@[now[j] as int] is Some);
                }
            }
            assert forall|id: usize| #[trigger] self.ids().contains(id) implies old(
                self,
            ).ids().contains(id) && self.node_at(id).data == old(self).node_at(id).data by {
                let j = choose|j: int| 0 <= j < now.len() && now[j] == id;
                let m = choose|m: int| 0 <= m < held@.len() && held@[m] == sorted@[j];
                assert(held@.contains(sorted@[j]));
                assert(ids[m] == id);
            }
        }
    }
}

/// Nodes in order, from their places and their data.
pub open spec fn held_of(ids: Seq<usize>, data: Seq<GPointer>) -> Seq<Held> {
    Seq::new(ids.len(), |i: int| Held { id: ids[i], data: data[i] })
}

/// The places of nodes.
pub open spec fn place_of(held: Seq<Held>) -> Seq<usize> {
    Seq::new(held.len(), |i: int| held[i].id)
}

/// The data of a node that comes with its place.
pub open spec fn held_data() -> spec_fn(Held) -> GPointer {
    |held: Held| held.data
}

/// The order of nodes by their data.
pub open spec fn held_order(under: spec_fn(GPointer, GPointer) -> int) -> spec_fn(
    Held,
    Held,
) -> int {
    |a: Held, b: Held| under(a.data, b.data)
}

/// Another order of nodes has each of them once.
pub(crate) proof fn lemma_sorted_held(held: Seq<Held>, ids: Seq<usize>, sorted: Seq<Held>)
    requires
        ids.no_duplicates(),
        held.len() == ids.len(),
        forall|i: int| 0 <= i < held.len() ==> (#[trigger] held[i]).id == ids[i],
        sorted.to_multiset() == held.to_multiset(),
    ensures
        sorted.len() == held.len(),
        place_of(sorted).no_duplicates(),
        place_of(sorted).to_multiset() == ids.to_multiset(),
        forall|j: int| 0 <= j < sorted.len() ==> held.contains(#[trigger] sorted[j]),
        forall|j: int| 0 <= j < sorted.len() ==> ids.contains(#[trigger] place_of(sorted)[j]),
{
    held.to_multiset_ensures();
    sorted.to_multiset_ensures();
    assert(held.no_duplicates()) by {
        assert forall|i: int, j: int| 0 <= i < held.len() && 0 <= j < held.len() && i != j implies held[i]
            != held[j] by {
            assert(held[i].id == ids[i] && held[j].id == ids[j]);
        }
    }
    held.lemma_multiset_has_no_duplicates();
    sorted.lemma_multiset_has_no_duplicates_conv();
    assert forall|j: int| 0 <= j < sorted.len() implies held.contains(#[trigger] sorted[j]) by {
        assert(sorted.contains(sorted[j]));
        assert(sorted.to_multiset().count(sorted[j]) > 0);
    }
    let places = place_of(sorted);
    assert forall|j: int| 0 <= j < sorted.len() implies ids.contains(#[trigger] places[j]) by {
        assert(held.contains(sorted[j]));
        let m = choose|m: int| 0 <= m < held.len() && held[m] == sorted[j];
        assert(ids[m] == places[j]);
    }
    assert forall|i: int, j: int|
        0 <= i < places.len() && 0 <= j < places.len() && i != j implies places[i] != places[j] by {
        assert(held.contains(sorted[i]) && held.contains(sorted[j]));
        let a = choose|m: int| 0 <= m < held.len() && held[m] == sorted[i];
        let b = choose|m: int| 0 <= m < held.len() && held[m] == sorted[j];
        assert(sorted[i] != sorted[j]);
        assert(held[a].id == ids[a] && held[b].id == ids[b]);
    }
    lemma_same_members(places, ids);
}

/// Two sequences without duplicates, as long, one in the other, have the same elements.
proof fn lemma_same_members(a: Seq<usize>, b: Seq<usize>)
    requires
        a.no_duplicates(),
        b.no_duplicates(),
        a.len() == b.len(),
        forall|j: int| 0 <= j < a.len() ==> b.contains(#[trigger] a[j]),
    ensures
        a.to_multiset() == b.to_multiset(),
    decreases a.len(),
{
    broadcast use vstd::multiset::group_multiset_axioms;

    if a.len() == 0 {
        assert(a =~= b);
    } else {
        let x = a.last();
        let rest = a.drop_last();
        assert(b.contains(a[a.len() - 1]));
        let m = choose|m: int| 0 <= m < b.len() && b[m] == x;
        let others = b.remove(m);
        assert forall|j: int| 0 <= j < rest.len() implies others.contains(#[trigger] rest[j]) by {
            assert(b.contains(a[j]));
            let k = choose|k: int| 0 <= k < b.len() && b[k] == a[j];
            assert(a[j] != a[a.len() - 1]);
            if k < m {
                assert(others[k] == rest[j]);
            } else {
                assert(others[k - 1] == rest[j]);
            }
        }
        assert(others.no_duplicates());
        lemma_same_members(rest, others);
        assert(rest.push(x) =~= a);
        rest.to_multiset_ensures();
        b.to_multiset_ensures();
        assert(b.to_multiset().count(x) > 0);
        assert(a.to_multiset() =~= b.to_multiset());
    }
}

/// The nodes of a list are linked in both directions: the node after one has it before itself, the
/// first has none before it, and the last none after.
pub proof fn law_links_agree(list: List)
    requires
        list.wf(),
    ensures
        list@.len() == list.ids().len(),
        list.ids().no_duplicates(),
        forall|i: int|
            0 <= i < list.ids().len() - 1 ==> {
                &&& (#[trigger] list.node_at(list.ids()[i])).next == Some(list.ids()[i + 1])
                &&& list.node_at(list.ids()[i + 1]).prev == Some(list.ids()[i])
            },
        list.ids().len() > 0 ==> list.node_at(list.ids()[0]).prev is None && list.node_at(
            list.ids().last(),
        ).next is None,
{
    let ids = list.ids@;
    assert forall|i: int| 0 <= i < ids.len() - 1 implies {
        &&& (#[trigger] list.node_at(ids[i])).next == Some(ids[i + 1])
        &&& list.node_at(ids[i + 1]).prev == Some(ids[i])
    } by {
        assert(list.nodes@[ids[i] as int] is Some && list.nodes@[ids[i + 1] as int] is Some);
    }
    if ids.len() > 0 {
        assert(list.nodes@[ids[0] as int] is Some);
        assert(list.nodes@[ids[ids.len() - 1] as int] is Some);
    }
}

/// A sort of nodes is stable: those that the order does not tell apart from `x` stay in their
/// order.
pub proof fn law_sort_keeps_node_order(
    ord: spec_fn(GPointer, GPointer) -> int,
    held: Seq<Held>,
    x: Held,
)
    requires
        crate::sort::preorder(ord),
    ensures
        crate::sort::class_of(
            held_order(ord),
            x,
            crate::sort::merge_sorted(held_order(ord), held),
        ) == crate::sort::class_of(held_order(ord), x, held),
{
    let by_data = held_order(ord);
    assert forall|a: Held, b: Held| (#[trigger] by_data(a, b) <= 0) || by_data(b, a) <= 0 by {
        assert(ord(a.data, b.data) <= 0 || ord(b.data, a.data) <= 0);
    }
    assert forall|a: Held, b: Held| (#[trigger] by_data(a, b) < 0) == (by_data(b, a) > 0) by {
        assert((ord(a.data, b.data) < 0) == (ord(b.data, a.data) > 0));
    }
    assert forall|a: Held, b: Held, c: Held| #[trigger]
        by_data(a, b) <= 0 && #[trigger] by_data(b, c) <= 0 implies by_data(a, c) <= 0 by {
        assert(ord(a.data, b.data) <= 0 && ord(b.data, c.data) <= 0);
    }
    crate::sort::law_sort_is_stable(by_data, held, x);
}

/// Reversing a list twice gives it back.
pub proof fn law_reverse_twice(s: Seq<GPointer>)
    ensures
        s.reverse().reverse() == s,
{
    assert(s.reverse().reverse() =~= s);
}

/// `first_index` is the position of the first occurrence from `from` on.
proof fn lemma_first_index(s: Seq<GPointer>, data: GPointer, from: int)
    requires
        0 <= from <= s.len(),
    ensures
        ({
            let i = first_index(s, data, from);
            &&& from <= i <= s.len()
            &&& i < s.len() ==> s[i] == data
            &&& forall|j: int| from <= j < i ==> #[trigger] s[j] != data
        }),
    decreases s.len() - from,
{
    if from < s.len() && s[from] != data {
        lemma_first_index(s, data, from + 1);
    }
}

/// Removing an element takes its first occurrence out where there is one, and the list then holds
/// it once less; a list without it stays as it is.
pub proof fn law_remove_first(s: Seq<GPointer>, data: GPointer)
    ensures
        ({
            let i = first_index(s, data, 0);
            &&& (i < s.len()) == s.contains(data)
            &&& s.contains(data) ==> s[i] == data && !s.take(i).contains(data) && without_first(
                s,
                data,
            ) == s.take(i) + s.skip(i + 1)
            &&& !s.contains(data) ==> without_first(s, data) == s
        }),
{
    let i = first_index(s, data, 0);
    lemma_first_index(s, data, 0);
    if i < s.len() {
        assert(s.contains(s[i]));
        assert(without_first(s, data) =~= s.take(i) + s.skip(i + 1));
    }
}

/// After removing all occurrences of an element none is left, and the others stay in their
/// order.
pub proof fn law_remove_all(s: Seq<GPointer>, data: GPointer)
    ensures
        !without_all(s, data).contains(data),
        without_all(s, data) == s.filter(|x: GPointer| x != data),
    decreases s.len(),
{
    let keep = |x: GPointer| x != data;
    if s.len() == 0 {
        reveal(Seq::filter);
        assert(s.filter(keep) =~= Seq::<GPointer>::empty());
    } else {
        let rest = s.skip(1);
        law_remove_all(rest, data);
        assert(s =~= seq![s[0]] + rest);
        Seq::filter_distributes_over_add(seq![s[0]], rest, keep);
        assert(seq![s[0]].filter(keep) == (if s[0] != data {
            seq![s[0]]
        } else {
            Seq::<GPointer>::empty()
        })) by {
            reveal(Seq::filter);
            assert(seq![s[0]].drop_last() =~= Seq::<GPointer>::empty());
            assert(seq![s[0]].drop_last().filter(keep) =~= Seq::<GPointer>::empty());
            assert(Seq::<GPointer>::empty().push(s[0]) =~= seq![s[0]]);
        }
        if s[0] == data {
            assert(Seq::<GPointer>::empty() + rest.filter(keep) =~= rest.filter(keep));
        } else {
            let all = without_all(s, data);
            assert forall|i: int| 0 <= i < all.len() implies all[i] != data by {
                if i > 0 {
                    assert(without_all(rest, data)[i - 1] == all[i]);
                    assert(without_all(rest, data).contains(all[i]));
                }
            }
        }
    }
}

/// An element that is put in at a position within a list, or at its end, stands there; those before
/// it stay where they are, and those from there on move one place on. At a negative position, or
/// one past the end, it comes last.
pub proof fn law_insert_lands(s: Seq<GPointer>, data: GPointer, position: int)
    ensures
        ({
            let after = s.insert(insert_position(s.len(), position), data);
            &&& after.len() == s.len() + 1
            &&& 0 <= position <= s.len() ==> {
                &&& after == s.insert(position, data)
                &&& after[position] == data
                &&& forall|i: int| 0 <= i < position ==> #[trigger] after[i] == s[i]
                &&& forall|i: int| position <= i < s.len() ==> after[i + 1] == #[trigger] s[i]
            }
            &&& position < 0 || position > s.len() ==> after == s.push(data)
        }),
{
    if position < 0 || position > s.len() {
        assert(s.insert(s.len() as int, data) =~= s.push(data));
    }
}

/// The nodes that stay when all occurrences of an element are removed, by their positions before:
/// they are those with other data, in order, and keep data and places.
pub proof fn law_nodes_that_stay(ids: Seq<usize>, s: Seq<GPointer>, data: GPointer) -> (at: Seq<int>)
    requires
        ids.len() == s.len(),
    ensures
        places_without(ids, s, data).len() == at.len(),
        without_all(s, data).len() == at.len(),
        forall|j: int|
            0 <= j < at.len() ==> {
                &&& 0 <= #[trigger] at[j] < s.len()
                &&& s[at[j]] != data
                &&& places_without(ids, s, data)[j] == ids[at[j]]
                &&& without_all(s, data)[j] == s[at[j]]
            },
        forall|j: int, k: int| 0 <= j < k < at.len() ==> #[trigger] at[j] < #[trigger] at[k],
        forall|i: int| 0 <= i < s.len() && #[trigger] s[i] != data ==> at.contains(i),
    decreases s.len(),
{
    if s.len() == 0 {
        Seq::empty()
    } else {
        let rest = law_nodes_that_stay(ids.skip(1), s.skip(1), data);
        let moved = Seq::new(rest.len(), |j: int| rest[j] + 1);
        let at = if s[0] == data {
            moved
        } else {
            seq![0int] + moved
        };
        assert forall|i: int| 0 <= i < s.len() && #[trigger] s[i] != data implies at.contains(i) by {
            if i == 0 {
                assert(at[0] == 0);
            } else {
                assert(s.skip(1)[i - 1] != data);
                let j = choose|j: int| 0 <= j < rest.len() && rest[j] == i - 1;
                assert(moved[j] == i);
                if s[0] == data {
                    assert(at[j] == i);
                } else {
                    assert(at[j + 1] == i);
                }
            }
        }
        at
    }
}

/// [`List::find_custom`] and [`SList::find_custom`] take the first element that the function, called
/// with it and with the data looked for, finds equal.
pub proof fn law_find_custom<F: Fn(GPointer, GPointer) -> i32>(
    s: Seq<GPointer>,
    data: GPointer,
    func: F,
    i: int,
)
    requires
        crate::callback::finds(match_test(func, data), s, i),
    ensures
        0 <= i <= s.len(),
        i < s.len() ==> func.ensures((s[i], data), 0i32),
        forall|j: int|
            0 <= j < i ==> exists|order: i32|
                order != 0 && func.ensures((#[trigger] s[j], data), order),
{
    let holds = match_test::<F>(func, data);
    assert forall|j: int| 0 <= j < i implies exists|order: i32|
        order != 0 && func.ensures((#[trigger] s[j], data), order) by {
        assert(holds(s[j], false));
    }
    if i < s.len() {
        assert(holds(s[i], true));
    }
}

/// A walk over the elements of a list, an array of pointers, calls the function with each of them,
/// in order: one that takes note of the elements it is called with has all of them in the end.
pub proof fn law_foreach_reaches_all<U, F: Fn(GPointer, U) -> U>(
    s: Seq<GPointer>,
    func: F,
    first: U,
    last: U,
    record: spec_fn(U) -> Seq<GPointer>,
)
    requires
        crate::callback::folds(visit(func), s, first, last),
        forall|item: GPointer, before: U, after: U| #[trigger]
            func.ensures((item, before), after) ==> record(after) == record(before).push(item),
    ensures
        record(last) == record(first) + s,
{
    crate::callback::law_folds_reach_all(visit::<U, F>(func), s, first, last, record);
}

} // verus!
