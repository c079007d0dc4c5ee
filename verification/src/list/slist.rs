//! Singly linked lists.

use vstd::prelude::*;
use crate::arena::{place, vacate};
use crate::list::Held;
use crate::ptr_array::GPointer;
use crate::sort::merge_sort;

verus! {

/// A node of a singly linked list.
#[derive(Debug, Clone, Copy, PartialEq, Eq, Structural)]
pub struct GSList {
    /// The data.
    pub data: GPointer,
    /// The place of the next node.
    pub next: Option<usize>,
}

/// A singly linked list.
pub struct SList {
    nodes: Vec<Option<GSList>>,
    free: Vec<usize>,
    head: Option<usize>,
    ids: Ghost<Seq<usize>>,
}

/// The nodes in the places `ids` are linked in this order.
pub open spec fn linked(nodes: Seq<Option<GSList>>, ids: Seq<usize>) -> bool {
    &&& ids.no_duplicates()
    &&& forall|i: int|
        0 <= i < ids.len() ==> {
            &&& ids[i] < nodes.len()
            &&& #[trigger] nodes[ids[i] as int] matches Some(node) && node.next == crate::list::next_id(ids, i)
        }
}

/// The data of the nodes in the places `ids`.
pub open spec fn linked_data(nodes: Seq<Option<GSList>>, ids: Seq<usize>) -> Seq<GPointer> {
    Seq::new(ids.len(), |i: int| nodes[ids[i] as int]->0.data)
}

/// A node put in at position `k`.
proof fn lemma_inserted(
    before: Seq<Option<GSList>>,
    ids: Seq<usize>,
    after: Seq<Option<GSList>>,
    k: int,
    new: usize,
    data: GPointer,
)
    requires
        linked(before, ids),
        0 <= k <= ids.len(),
        new < after.len(),
        before.len() <= after.len(),
        new < before.len() ==> before[new as int] is None,
        after[new as int] == Some(
            GSList { data, next: crate::list::next_id(ids, k - 1) },
        ),
        forall|i: int|
            0 <= i < ids.len() ==> #[trigger] after[ids[i] as int] == Some(
                GSList {
                    data: before[ids[i] as int]->0.data,
                    next: if i == k - 1 {
                        Some(new)
                    } else {
                        crate::list::next_id(ids, i)
                    },
                },
            ),
    ensures
        linked(after, ids.insert(k, new)),
        linked_data(after, ids.insert(k, new)) == linked_data(before, ids).insert(k, data),
{
    let now = ids.insert(k, new);
    assert forall|i: int| 0 <= i < now.len() implies {
        &&& now[i] < after.len()
        &&& #[trigger] after[now[i] as int] matches Some(node) && node.next == crate::list::next_id(now, i) && node.data
            == linked_data(before, ids).insert(k, data)[i]
    } by {
        if i < k {
            assert(now[i] == ids[i]);
            assert(before[ids[i] as int] is Some);
            assert(after[ids[i] as int] is Some);
        } else if i > k {
            assert(now[i] == ids[i - 1]);
            assert(before[ids[i - 1] as int] is Some);
            assert(after[ids[i - 1] as int] is Some);
        }
    }
    assert(now.no_duplicates()) by {
        assert forall|i: int, j: int|
            0 <= i < now.len() && 0 <= j < now.len() && i != j implies now[i] != now[j] by {
            let a = if i > k {
                i - 1
            } else {
                i
            };
            let b = if j > k {
                j - 1
            } else {
                j
            };
            if i != k {
                assert(now[i] == ids[a]);
                assert(before[ids[a] as int] is Some);
            }
            if j != k {
                assert(now[j] == ids[b]);
                assert(before[ids[b] as int] is Some);
            }
        }
    }
    assert(linked_data(after, now) =~= linked_data(before, ids).insert(k, data)) by {
        assert forall|i: int| 0 <= i < now.len() implies linked_data(after, now)[i] == linked_data(
            before,
            ids,
        ).insert(k, data)[i] by {
            assert(after[now[i] as int] is Some);
        }
    }
}

/// A node taken out.
proof fn lemma_removed(
    before: Seq<Option<GSList>>,
    ids: Seq<usize>,
    after: Seq<Option<GSList>>,
    k: int,
)
    requires
        linked(before, ids),
        0 <= k < ids.len(),
        after.len() == before.len(),
        forall|i: int|
            0 <= i < ids.len() && i != k ==> #[trigger] after[ids[i] as int] == Some(
                GSList {
                    data: before[ids[i] as int]->0.data,
                    next: if i == k - 1 {
                        crate::list::next_id(ids, k)
                    } else {
                        crate::list::next_id(ids, i)
                    },
                },
            ),
    ensures
        linked(after, ids.remove(k)),
        linked_data(after, ids.remove(k)) == linked_data(before, ids).remove(k),
{
    let now = ids.remove(k);
    assert forall|i: int| 0 <= i < now.len() implies {
        &&& now[i] < after.len()
        &&& #[trigger] after[now[i] as int] matches Some(node) && node.next == crate::list::next_id(now, i) && node.data
            == linked_data(before, ids).remove(k)[i]
    } by {
        let a = if i >= k {
            i + 1
        } else {
            i
        };
        assert(now[i] == ids[a]);
        assert(before[ids[a] as int] is Some);
        assert(after[ids[a] as int] is Some);
    }
    assert(now.no_duplicates()) by {
        assert forall|i: int, j: int|
            0 <= i < now.len() && 0 <= j < now.len() && i != j implies now[i] != now[j] by {
            let a = if i >= k {
                i + 1
            } else {
                i
            };
            let b = if j >= k {
                j + 1
            } else {
                j
            };
            assert(now[i] == ids[a] && now[j] == ids[b]);
        }
    }
    assert(linked_data(after, now) =~= linked_data(before, ids).remove(k)) by {
        assert forall|i: int| 0 <= i < now.len() implies linked_data(after, now)[i] == linked_data(
            before,
            ids,
        ).remove(k)[i] by {
            assert(after[now[i] as int] is Some);
        }
    }
}

impl View for SList {
    type V = Seq<GPointer>;

    /// The data of the nodes, in order.
    open spec fn view(&self) -> Seq<GPointer> {
        Seq::new(self.ids().len(), |i: int| self.node_at(self.ids()[i]).data)
    }
}

impl Default for SList {
    fn default() -> (list: Self)
        ensures
            list.wf(),
            list.ids() == Seq::<usize>::empty(),
    {
        SList { nodes: Vec::new(), free: Vec::new(), head: None, ids: Ghost(Seq::empty()) }
    }
}

impl SList {
    /// The places of the nodes, in order.
    pub closed spec fn ids(&self) -> Seq<usize> {
        self.ids@
    }

    /// The node in a place.
    pub closed spec fn node_at(&self, id: usize) -> GSList {
        self.nodes@[id as int]->0
    }

    /// The invariant of a list: its nodes are linked in order, each to the next.
    pub closed spec fn wf(&self) -> bool {
        &&& linked(self.nodes@, self.ids@)
        &&& crate::arena::free_places(self.nodes@, self.free@)
        &&& self.head == crate::list::next_id(self.ids@, -1)
    }

    /// An empty list.
    pub fn new() -> (list: Self)
        ensures
            list.wf(),
            list.ids() == Seq::<usize>::empty(),
            list@ == Seq::<GPointer>::empty(),
    {
        let list = SList { nodes: Vec::new(), free: Vec::new(), head: None, ids: Ghost(Seq::empty()) };
        assert(list@ =~= Seq::<GPointer>::empty());
        list
    }

    /// The place of the first node.
    pub fn as_ptr(&self) -> (head: Option<usize>)
        requires
            self.wf(),
        ensures
            head == crate::list::next_id(self.ids(), -1),
    {
        self.head
    }

    /// The node in a place.
    pub fn node(&self, id: usize) -> (node: &GSList)
        requires
            self.wf(),
            self.ids().contains(id),
        ensures
            *node == self.node_at(id),
            forall|i: int|
                0 <= i < self.ids().len() && #[trigger] self.ids()[i] == id ==> node.next
                    == crate::list::next_id(self.ids(), i) && node.data == self@[i],
    {
        proof {
            let i = choose|i: int| 0 <= i < self.ids@.len() && self.ids@[i] == id;
            assert(self.nodes@[self.ids@[i] as int] is Some);
        }
        self.nodes[id].as_ref().unwrap()
    }

    /// Give the nodes and the place of the first away.
    pub fn into_ptr(self) -> (parts: (Vec<Option<GSList>>, Option<usize>))
        requires
            self.wf(),
        ensures
            linked(parts.0@, self.ids()),
            parts.1 == crate::list::next_id(self.ids(), -1),
            linked_data(parts.0@, self.ids()) == self@,
    {
        assert(linked_data(self.nodes@, self.ids@) =~= self@);
        (self.nodes, self.head)
    }

    /// A list of nodes that are linked in order, from the place of the first on.
    pub fn from_ptr(nodes: Vec<Option<GSList>>, head: Option<usize>) -> (list: Self)
        requires
            exists|ids: Seq<usize>| #[trigger] linked(nodes@, ids) && head == crate::list::next_id(ids, -1),
        ensures
            list.wf(),
            linked(nodes@, list.ids()),
            head == crate::list::next_id(list.ids(), -1),
            list@ == linked_data(nodes@, list.ids()),
    {
        let ghost ids = choose|ids: Seq<usize>| #[trigger]
            linked(nodes@, ids) && head == crate::list::next_id(ids, -1);
        let list = SList { nodes, free: Vec::new(), head, ids: Ghost(ids) };
        assert(list@ =~= linked_data(nodes@, ids));
        list
    }

    /// Whether the list is empty.
    pub fn is_empty(&self) -> (empty: bool)
        requires
            self.wf(),
        ensures
            empty == (self@.len() == 0),
    {
        self.head.is_none()
    }

    fn get(&self, id: usize) -> (node: GSList)
        requires
            id < self.nodes@.len(),
            self.nodes@[id as int] is Some,
        ensures
            node == self.nodes@[id as int]->0,
    {
        *self.nodes[id].as_ref().unwrap()
    }

    fn set_next(&mut self, id: usize, next: Option<usize>)
        requires
            id < old(self).nodes@.len(),
            old(self).nodes@[id as int] is Some,
            crate::arena::free_places(old(self).nodes@, old(self).free@),
        ensures
            crate::arena::free_places(final(self).nodes@, final(self).free@),
            final(self).head == old(self).head,
            final(self).ids@ == old(self).ids@,
            final(self).nodes@ == old(self).nodes@.update(
                id as int,
                Some(GSList { next, ..old(self).nodes@[id as int]->0 }),
            ),
    {
        let node: GSList = self.get(id);
        self.nodes[id] = Some(GSList { data: node.data, next });
    }

    /// The place of the last node.
    fn last(&self) -> (last: Option<usize>)
        requires
            self.wf(),
        ensures
            last == crate::list::prev_id(self.ids@, self.ids@.len() as int),
    {
        let mut last: Option<usize> = None;
        let mut current: Option<usize> = self.head;
        let ghost mut k: int = 0;
        while current.is_some()
            invariant
                self.wf(),
                0 <= k <= self.ids@.len(),
                current == crate::list::next_id(self.ids@, k - 1),
                last == crate::list::prev_id(self.ids@, k),
            decreases self.ids@.len() - k,
        {
            let id: usize = current.unwrap();
            assert(self.ids@[k] == id);
            last = Some(id);
            current = self.get(id).next;
            proof {
                k = k + 1;
            }
        }
        last
    }

    /// Link a node in between two neighbours, at position `k`.
    fn link_in(
        &mut self,
        prev: Option<usize>,
        next: Option<usize>,
        data: GPointer,
        Ghost(k): Ghost<int>,
    ) -> (new: usize)
        requires
            old(self).wf(),
            0 <= k <= old(self).ids@.len(),
            prev == crate::list::prev_id(old(self).ids@, k),
            next == crate::list::next_id(old(self).ids@, k - 1),
        ensures
            final(self).wf(),
            final(self).ids@ == old(self).ids@.insert(k, new),
            final(self)@ == old(self)@.insert(k, data),
    {
        let ghost ids = self.ids@;
        let ghost before = self.nodes@;
        let new: usize = place(&mut self.nodes, &mut self.free, GSList { data, next });
        match prev {
            Some(id) => {
                assert(ids[k - 1] == id && before[ids[k - 1] as int] is Some);
                self.set_next(id, Some(new));
            },
            None => {
                self.head = Some(new);
            },
        }
        self.ids = Ghost(ids.insert(k, new));
        proof {
            assert forall|i: int| 0 <= i < ids.len() implies #[trigger] self.nodes@[ids[i] as int]
                == Some(
                GSList {
                    data: before[ids[i] as int]->0.data,
                    next: if i == k - 1 {
                        Some(new)
                    } else {
                        crate::list::next_id(ids, i)
                    },
                },
            ) by {
                assert(before[ids[i] as int] is Some);
            }
            lemma_inserted(before, ids, self.nodes@, k, new, data);
            assert(self@ =~= linked_data(self.nodes@, self.ids@));
            assert(old(self)@ =~= linked_data(before, ids));
        }
        new
    }

    /// Add a node at the end.
    pub fn append(&mut self, data: GPointer)
        requires
            old(self).wf(),
        ensures
            final(self).wf(),
            final(self)@ == old(self)@.push(data),
            final(self).ids().drop_last() == old(self).ids(),
    {
        let last: Option<usize> = self.last();
        self.link_in(last, None, data, Ghost(self.ids@.len() as int));
        proof {
            assert(self@ =~= old(self)@.push(data));
            assert(self.ids@.drop_last() =~= old(self).ids@);
        }
    }

    /// Add a node at the start.
    pub fn prepend(&mut self, data: GPointer)
        requires
            old(self).wf(),
        ensures
            final(self).wf(),
            final(self)@ == seq![data] + old(self)@,
            final(self).ids().skip(1) == old(self).ids(),
    {
        let head: Option<usize> = self.head;
        self.link_in(None, head, data, Ghost(0));
        proof {
            assert(self@ =~= seq![data] + old(self)@);
            assert(self.ids@.skip(1) =~= old(self).ids@);
        }
    }

    /// Add a node before the node at `position`; at the end where the position is negative or
    /// there is no such node.
    pub fn insert(&mut self, data: GPointer, position: i32)
        requires
            old(self).wf(),
        ensures
            final(self).wf(),
            ({
                let i = crate::list::insert_position(old(self)@.len(), position as int);
                &&& final(self)@ == old(self)@.insert(i, data)
                &&& final(self).ids().remove(i) == old(self).ids()
            }),
            0 <= position <= old(self)@.len() ==> final(self)@ == old(self)@.insert(
                position as int,
                data,
            ),
            position < 0 || position > old(self)@.len() ==> final(self)@ == old(self)@.push(data),
    {
        if position < 0 {
            self.append(data);
        } else if position == 0 {
            self.prepend(data);
        } else {
            let mut prev: Option<usize> = None;
            let mut current: Option<usize> = self.head;
            let mut left: i32 = position;
            let ghost mut k: int = 0;
            while left > 0 && current.is_some()
                invariant
                    self.wf(),
                    *self == *old(self),
                    0 <= left <= position,
                    k == position - left,
                    0 <= k <= self.ids@.len(),
                    prev == crate::list::prev_id(self.ids@, k),
                    current == crate::list::next_id(self.ids@, k - 1),
                decreases left,
            {
                let id: usize = current.unwrap();
                assert(self.ids@[k] == id);
                prev = Some(id);
                current = self.get(id).next;
                left = left - 1;
                proof {
                    k = k + 1;
                }
            }
            self.link_in(prev, current, data, Ghost(k));
        }
        proof {
            let i = crate::list::insert_position(old(self)@.len(), position as int);
            assert(self@ =~= old(self)@.insert(i, data));
            crate::list::law_insert_lands(old(self)@, data, position as int);
            assert(self.ids@.remove(i) =~= old(self).ids@);
        }
    }

    /// Take the node in a place, after the node in `prev`, out of the list.
    fn unlink(&mut self, prev: Option<usize>, id: usize, Ghost(k): Ghost<int>)
        requires
            old(self).wf(),
            0 <= k < old(self).ids@.len(),
            old(self).ids@[k] == id,
            prev == crate::list::prev_id(old(self).ids@, k),
        ensures
            final(self).wf(),
            final(self).ids@ == old(self).ids@.remove(k),
            final(self)@ == old(self)@.remove(k),
    {
        let ghost ids = self.ids@;
        let ghost before = self.nodes@;
        assert(before[ids[k] as int] is Some);
        let node: GSList = self.get(id);
        match prev {
            Some(prev_place) => {
                assert(ids[k - 1] == prev_place && before[ids[k - 1] as int] is Some);
                self.set_next(prev_place, node.next);
            },
            None => {
                self.head = node.next;
            },
        }
        vacate(&mut self.nodes, &mut self.free, id);
        self.ids = Ghost(ids.remove(k));
        proof {
            assert forall|i: int| 0 <= i < ids.len() && i != k implies #[trigger] self.nodes@[ids[i] as int]
                == Some(
                GSList {
                    data: before[ids[i] as int]->0.data,
                    next: if i == k - 1 {
                        crate::list::next_id(ids, k)
                    } else {
                        crate::list::next_id(ids, i)
                    },
                },
            ) by {
                assert(before[ids[i] as int] is Some);
                assert(ids[i] != ids[k]);
            }
            lemma_removed(before, ids, self.nodes@, k);
            assert(self@ =~= linked_data(self.nodes@, self.ids@));
            assert(old(self)@ =~= linked_data(before, ids));
        }
    }

    /// Remove the first node with this data, or all of them.
    fn remove_data(&mut self, data: GPointer, all: bool)
        requires
            old(self).wf(),
        ensures
            final(self).wf(),
            all ==> final(self)@ == crate::list::without_all(old(self)@, data),
            all ==> final(self).ids() == crate::list::places_without(
                old(self).ids(),
                old(self)@,
                data,
            ),
            !all ==> final(self)@ == crate::list::without_first(old(self)@, data),
            !all ==> final(self).ids() == ({
                let i = crate::list::first_index(old(self)@, data, 0);
                if i < old(self)@.len() {
                    old(self).ids().remove(i)
                } else {
                    old(self).ids()
                }
            }),
    {
        let ghost start = self@;
        let ghost places = self.ids@;
        let mut prev: Option<usize> = None;
        let mut current: Option<usize> = self.head;
        let ghost mut k: int = 0;
        proof {
            assert(places.skip(0) =~= places && self@.skip(0) =~= start);
            assert(places.take(0) + crate::list::places_without(
                places.skip(0),
                self@.skip(0),
                data,
            ) =~= crate::list::places_without(places, start, data));
            assert(self@.take(0) + crate::list::without_all(self@.skip(0), data) =~= crate::list::without_all(start, data));
        }
        while current.is_some()
            invariant
                self.wf(),
                start == old(self)@,
                0 <= k <= self.ids@.len(),
                self@.len() == self.ids@.len(),
                prev == crate::list::prev_id(self.ids@, k),
                current == crate::list::next_id(self.ids@, k - 1),
                !all ==> *self == *old(self) && crate::list::first_index(start, data, 0) == crate::list::first_index(
                    start,
                    data,
                    k,
                ),
                places == old(self).ids@,
                self@.take(k) + crate::list::without_all(self@.skip(k), data)
                    == crate::list::without_all(start, data),
                self.ids@.take(k) + crate::list::places_without(
                    self.ids@.skip(k),
                    self@.skip(k),
                    data,
                ) == crate::list::places_without(places, start, data),
            decreases self.ids@.len() - k,
        {
            let id: usize = current.unwrap();
            assert(self.ids@[k] == id);
            let node: GSList = self.get(id);
            assert(self@[k] == node.data);
            proof {
                crate::list::lemma_without_all(self@, data, k);
                crate::list::lemma_places_without(self.ids@, self@, data, k);
            }
            current = node.next;
            if node.data == data {
                self.unlink(prev, id, Ghost(k));
                if !all {
                    return;
                }
            } else {
                prev = Some(id);
                proof {
                    k = k + 1;
                }
            }
        }
        proof {
            assert(self@.skip(k) =~= Seq::<GPointer>::empty());
            assert(self@.take(k) + Seq::<GPointer>::empty() =~= self@);
            assert(self.ids@.take(k) + Seq::<usize>::empty() =~= self.ids@);
        }
    }

    /// Remove the first node with this data.
    pub fn remove(&mut self, data: GPointer)
        requires
            old(self).wf(),
        ensures
            final(self).wf(),
            final(self)@ == crate::list::without_first(old(self)@, data),
            final(self).ids() == ({
                let i = crate::list::first_index(old(self)@, data, 0);
                if i < old(self)@.len() {
                    old(self).ids().remove(i)
                } else {
                    old(self).ids()
                }
            }),
    {
        self.remove_data(data, false);
    }

    /// Remove all nodes with this data.
    pub fn remove_all(&mut self, data: GPointer)
        requires
            old(self).wf(),
        ensures
            final(self).wf(),
            final(self)@ == crate::list::without_all(old(self)@, data),
            final(self).ids() == crate::list::places_without(old(self).ids(), old(self)@, data),
    {
        self.remove_data(data, true);
    }

    /// The number of nodes.
    pub fn length(&self) -> (length: u32)
        requires
            self.wf(),
            self@.len() <= u32::MAX,
        ensures
            length == self@.len(),
    {
        let mut length: u32 = 0;
        let mut current: Option<usize> = self.head;
        while current.is_some()
            invariant
                self.wf(),
                length <= self.ids@.len() <= u32::MAX,
                current == crate::list::next_id(self.ids@, length - 1),
            decreases self.ids@.len() - length,
        {
            let id: usize = current.unwrap();
            assert(self.ids@[length as int] == id);
            current = self.get(id).next;
            length = length + 1;
        }
        length
    }

    fn nth_id(&self, n: u32) -> (id: Option<usize>)
        requires
            self.wf(),
        ensures
            id == crate::list::next_id(self.ids@, n - 1),
    {
        let mut current: Option<usize> = self.head;
        let mut k: u32 = 0;
        while k < n && current.is_some()
            invariant
                self.wf(),
                k <= n,
                k <= self.ids@.len(),
                current == crate::list::next_id(self.ids@, k - 1),
            decreases n - k,
        {
            let id: usize = current.unwrap();
            assert(self.ids@[k as int] == id);
            current = self.get(id).next;
            k = k + 1;
        }
        current
    }

    /// The node at position `n`.
    pub fn nth(&self, n: u32) -> (node: Option<&GSList>)
        requires
            self.wf(),
        ensures
            node is Some == (n < self@.len()),
            node matches Some(g) ==> *g == self.node_at(self.ids()[n as int]) && g.data
                == self@[n as int],
    {
        match self.nth_id(n) {
            Some(id) => {
                assert(self.ids@[n as int] == id);
                Some(self.nodes[id].as_ref().unwrap())
            },
            None => None,
        }
    }

    /// The data of the node at position `n`; 0 where there is none.
    pub fn nth_data(&self, n: u32) -> (data: GPointer)
        requires
            self.wf(),
        ensures
            data == (if n < self@.len() {
                self@[n as int]
            } else {
                0
            }),
    {
        match self.nth(n) {
            Some(node) => node.data,
            None => 0,
        }
    }

    /// The first node with this data.
    pub fn find(&self, data: GPointer) -> (node: Option<&GSList>)
        requires
            self.wf(),
        ensures
            ({
                let i = crate::list::first_index(self@, data, 0);
                &&& node is Some == (i < self@.len())
                &&& node matches Some(g) ==> *g == self.node_at(self.ids()[i]) && g.data == data
            }),
    {
        let mut current: Option<usize> = self.head;
        let ghost mut k: int = 0;
        while current.is_some()
            invariant
                self.wf(),
                0 <= k <= self.ids@.len(),
                current == crate::list::next_id(self.ids@, k - 1),
                crate::list::first_index(self@, data, 0) == crate::list::first_index(self@, data, k),
            decreases self.ids@.len() - k,
        {
            let id: usize = current.unwrap();
            assert(self.ids@[k] == id && self.nodes@[self.ids@[k] as int] is Some);
            let node: &GSList = self.nodes[id].as_ref().unwrap();
            assert(self@[k] == node.data);
            if node.data == data {
                return Some(node);
            }
            current = node.next;
            proof {
                k = k + 1;
            }
        }
        None
    }

    /// The first node that `func`, called with the node's data and `data`, finds equal: it returns
    /// zero.
    pub fn find_custom<F: Fn(GPointer, GPointer) -> i32>(&self, data: GPointer, func: F) -> (node:
        Option<&GSList>)
        requires
            self.wf(),
            forall|a: GPointer, b: GPointer| #[trigger] func.requires((a, b)),
        ensures
            exists|i: int| #[trigger]
                crate::callback::finds(crate::list::match_test(func, data), self@, i) && {
                    &&& node is Some == (i < self@.len())
                    &&& node matches Some(g) ==> *g == self.node_at(self.ids()[i]) && g.data
                        == self@[i]
                },
    {
        let ghost holds = crate::list::match_test::<F>(func, data);
        let mut current: Option<usize> = self.head;
        let ghost mut k: int = 0;
        while current.is_some()
            invariant
                self.wf(),
                forall|a: GPointer, b: GPointer| #[trigger] func.requires((a, b)),
                holds == crate::list::match_test::<F>(func, data),
                0 <= k <= self.ids@.len(),
                current == crate::list::next_id(self.ids@, k - 1),
                forall|j: int| 0 <= j < k ==> holds(#[trigger] self@[j], false),
            decreases self.ids@.len() - k,
        {
            let id: usize = current.unwrap();
            assert(self.ids@[k] == id && self.nodes@[self.ids@[k] as int] is Some);
            let node: &GSList = self.nodes[id].as_ref().unwrap();
            assert(self@[k] == node.data);
            let order: i32 = func(node.data, data);
            assert(holds(self@[k], order == 0));
            if order == 0 {
                assert(crate::callback::finds(holds, self@, k));
                return Some(node);
            }
            current = node.next;
            proof {
                k = k + 1;
            }
        }
        assert(crate::callback::finds(holds, self@, k));
        None
    }

    /// Call `func` with the data of each node and the data so far, in order; the data is what the
    /// call before returned, `user_data` at first. Returns the last data.
    pub fn foreach<U, F: Fn(GPointer, U) -> U>(&self, func: F, user_data: U) -> (result: U)
        requires
            self.wf(),
            forall|item: GPointer, data: U| #[trigger] func.requires((item, data)),
        ensures
            crate::callback::folds(crate::list::visit(func), self@, user_data, result),
    {
        let ghost step = crate::list::visit::<U, F>(func);
        let mut now: U = user_data;
        let mut current: Option<usize> = self.head;
        let ghost mut k: int = 0;
        proof {
            crate::callback::lemma_folds_empty::<GPointer, U>(step, user_data);
            assert(self@.take(0) =~= Seq::<GPointer>::empty());
        }
        while current.is_some()
            invariant
                self.wf(),
                forall|item: GPointer, data: U| #[trigger] func.requires((item, data)),
                step == crate::list::visit::<U, F>(func),
                0 <= k <= self.ids@.len(),
                current == crate::list::next_id(self.ids@, k - 1),
                crate::callback::folds(step, self@.take(k), user_data, now),
            decreases self.ids@.len() - k,
        {
            let id: usize = current.unwrap();
            assert(self.ids@[k] == id);
            let node: GSList = self.get(id);
            let ghost before = now;
            now = func(node.data, now);
            proof {
                assert(self@[k] == node.data);
                assert(step(self@[k], before, now));
                crate::callback::lemma_folds_push(
                    step,
                    self@.take(k),
                    self@[k],
                    user_data,
                    before,
                    now,
                );
                assert(self@.take(k).push(self@[k]) =~= self@.take(k + 1));
                k = k + 1;
            }
            current = node.next;
        }
        assert(self@.take(k) =~= self@);
        now
    }

    /// A list with the same data.
    pub fn copy(&self) -> (copy: Self)
        requires
            self.wf(),
        ensures
            copy.wf(),
            copy@ == self@,
    {
        let mut copy = SList::new();
        copy.append_all(self);
        assert(copy@ =~= self@);
        copy
    }

    /// Add nodes with the data of another list at the end.
    fn append_all(&mut self, other: &SList)
        requires
            old(self).wf(),
            other.wf(),
        ensures
            final(self).wf(),
            final(self)@ == old(self)@ + other@,
            final(self).ids().take(old(self).ids().len() as int) == old(self).ids(),
    {
        let ghost start = self@;
        let ghost places = self.ids@;
        let mut last: Option<usize> = self.last();
        let mut current: Option<usize> = other.head;
        let ghost mut k: int = 0;
        assert(start + other@.take(0) =~= start);
        assert(self.ids@.take(places.len() as int) =~= places);
        while current.is_some()
            invariant
                self.wf(),
                other.wf(),
                0 <= k <= other.ids@.len(),
                current == crate::list::next_id(other.ids@, k - 1),
                last == crate::list::prev_id(self.ids@, self.ids@.len() as int),
                self@ == start + other@.take(k),
                places.len() <= self.ids@.len(),
                self.ids@.take(places.len() as int) == places,
            decreases other.ids@.len() - k,
        {
            let id: usize = current.unwrap();
            assert(other.ids@[k] == id);
            let node: GSList = other.get(id);
            let ghost before = self.ids@;
            let new: usize = self.link_in(last, None, node.data, Ghost(self.ids@.len() as int));
            proof {
                assert(self.ids@.take(places.len() as int) =~= before.take(places.len() as int));
                assert(other@[k] == node.data);
                assert(self@ =~= start + other@.take(k + 1));
                k = k + 1;
            }
            last = Some(new);
            current = node.next;
        }
        assert(other@.take(k) =~= other@);
    }

    /// Add the nodes of another list at the end.
    pub fn concat(&mut self, other: Self)
        requires
            old(self).wf(),
            other.wf(),
        ensures
            final(self).wf(),
            final(self)@ == old(self)@ + other@,
            final(self).ids().take(old(self).ids().len() as int) == old(self).ids(),
    {
        self.append_all(&other);
    }

    /// Reverse the order of the nodes.
    pub fn reverse(&mut self)
        requires
            old(self).wf(),
        ensures
            final(self).wf(),
            final(self)@ == old(self)@.reverse(),
            final(self).ids() == old(self).ids().reverse(),
    {
        let ghost ids = self.ids@;
        let ghost before = self.nodes@;
        let mut last: Option<usize> = None;
        let mut current: Option<usize> = self.head;
        let ghost mut k: int = 0;
        while current.is_some()
            invariant
                linked(before, ids),
                crate::arena::free_places(self.nodes@, self.free@),
                self.ids@ == ids,
                self.nodes@.len() == before.len(),
                0 <= k <= ids.len(),
                current == crate::list::next_id(ids, k - 1),
                last == crate::list::prev_id(ids, k),
                forall|i: int|
                    0 <= i < ids.len() ==> {
                        &&& self.nodes@[(#[trigger] ids[i]) as int] is Some
                        &&& self.nodes@[ids[i] as int]->0.data == before[ids[i] as int]->0.data
                        &&& i < k ==> self.nodes@[ids[i] as int]->0.next == crate::list::prev_id(ids, i)
                        &&& i >= k ==> self.nodes@[ids[i] as int] == before[ids[i] as int]
                    },
            decreases ids.len() - k,
        {
            let id: usize = current.unwrap();
            assert(ids[k] == id && before[ids[k] as int] is Some);
            assert(before[ids[k] as int] is Some);
            let node: GSList = self.get(id);
            self.nodes[id] = Some(GSList { data: node.data, next: last });
            last = Some(id);
            current = node.next;
            proof {
                assert forall|i: int| 0 <= i < ids.len() && i != k implies (#[trigger] ids[i])
                    != id by {
                    assert(ids[i] != ids[k]);
                }
                k = k + 1;
            }
        }
        self.head = last;
        self.ids = Ghost(ids.reverse());
        proof {
            let after = self.ids@;
            let n = ids.len();
            assert forall|i: int| 0 <= i < after.len() implies {
                &&& after[i] < self.nodes@.len()
                &&& #[trigger] self.nodes@[after[i] as int] matches Some(node) && node.next == crate::list::next_id(after, i)
            } by {
                assert(after[i] == ids[n - 1 - i]);
                assert(before[ids[n - 1 - i] as int] is Some);
            }
            assert(after.no_duplicates()) by {
                assert forall|i: int, j: int|
                    0 <= i < after.len() && 0 <= j < after.len() && i != j implies after[i]
                    != after[j] by {
                    assert(after[i] == ids[n - 1 - i] && after[j] == ids[n - 1 - j]);
                }
            }
            assert(self@ =~= old(self)@.reverse()) by {
                assert forall|i: int| 0 <= i < after.len() implies self@[i] == old(
                    self,
                )@.reverse()[i] by {
                    assert(after[i] == ids[n - 1 - i]);
                }
            }
        }
    }

    /// The nodes with their places, in order.
    fn held(&self) -> (held: Vec<Held>)
        requires
            self.wf(),
        ensures
            held@.len() == self.ids@.len(),
            forall|i: int|
                0 <= i < held@.len() ==> (#[trigger] held@[i]).id == self.ids@[i] && held@[i].data
                    == self@[i],
    {
        let mut held: Vec<Held> = Vec::new();
        let mut current: Option<usize> = self.head;
        while current.is_some()
            invariant
                self.wf(),
                held@.len() <= self.ids@.len(),
                current == crate::list::next_id(self.ids@, held@.len() - 1),
                forall|i: int|
                    0 <= i < held@.len() ==> (#[trigger] held@[i]).id == self.ids@[i]
                        && held@[i].data == self@[i],
            decreases self.ids@.len() - held@.len(),
        {
            let id: usize = current.unwrap();
            assert(self.ids@[held@.len() as int] == id);
            let node: GSList = self.get(id);
            held.push(Held { id, data: node.data });
            current = node.next;
        }
        held
    }

    /// Sort the nodes by their data. The sort is stable: nodes that the order does not tell apart
    /// stay in their order.
    pub fn sort<F: Fn(GPointer, GPointer) -> i32>(&mut self, compare_func: F)
        requires
            old(self).wf(),
            crate::sort::callable(compare_func),
        ensures
            final(self).wf(),
            forall|ord: spec_fn(GPointer, GPointer) -> int| #[trigger]
                crate::sort::answers_by(compare_func, ord) ==> final(self)@
                    == crate::sort::merge_sorted(ord, old(self)@),
            forall|ord: spec_fn(GPointer, GPointer) -> int| #[trigger]
                crate::sort::answers_by(compare_func, ord) ==> final(self).ids()
                    == crate::list::place_of(
                    crate::sort::merge_sorted(
                        crate::list::held_order(ord),
                        crate::list::held_of(old(self).ids(), old(self)@),
                    ),
                ),
            final(self).ids().to_multiset() == old(self).ids().to_multiset(),
            forall|id: usize| #[trigger]
                final(self).ids().contains(id) ==> old(self).ids().contains(id)
                    && final(self).node_at(id).data == old(self).node_at(id).data,
    {
        let held = self.held();
        let compare: &F = &compare_func;
        let by_data = |a: Held, b: Held| -> (order: i32)
            requires
                compare.requires((a.data, b.data)),
            ensures
                compare.ensures((a.data, b.data), order),
            { compare(a.data, b.data) };
        let sorted = merge_sort(&held, &by_data);
        let ghost ids = self.ids@;
        let ghost before = self.nodes@;
        let ghost now = crate::list::place_of(sorted@);
        proof {
            crate::list::lemma_sorted_held(held@, ids, sorted@);
            assert(crate::sort::mapped(held@, crate::list::held_data()) =~= self@);
            assert(held@ =~= crate::list::held_of(ids, self@));
            assert forall|under: spec_fn(GPointer, GPointer) -> int| #[trigger]
                crate::sort::answers_by(compare_func, under) implies crate::sort::mapped(
                sorted@,
                crate::list::held_data(),
            ) == crate::sort::merge_sorted(under, self@) && sorted@
                == crate::sort::merge_sorted(crate::list::held_order(under), held@) by {
                let ord = crate::list::held_order(under);
                assert(crate::sort::answers_by(by_data, ord));
                crate::sort::lemma_sorted_mapped(ord, under, crate::list::held_data(), held@);
            }
        }
        let mut i: usize = 0;
        while i < sorted.len()
            invariant
                linked(before, ids),
                crate::arena::free_places(self.nodes@, self.free@),
                self.nodes@.len() == before.len(),
                now == crate::list::place_of(sorted@),
                now.no_duplicates(),
                i <= sorted@.len(),
                forall|j: int|
                    0 <= j < now.len() ==> (#[trigger] now[j]) < before.len()
                        && self.nodes@[now[j] as int] is Some,
                forall|j: int|
                    0 <= j < i ==> #[trigger] self.nodes@[now[j] as int] == Some(
                        GSList {
                            data: sorted@[j].data,
                            next: crate::list::next_id(now, j),
                        },
                    ),
            decreases sorted@.len() - i,
        {
            let next: Option<usize> = if i + 1 < sorted.len() {
                Some(sorted[i + 1].id)
            } else {
                None
            };
            let id: usize = sorted[i].id;
            assert(now[i as int] == id && self.nodes@[now[i as int] as int] is Some);
            assert(i + 1 < sorted.len() ==> now[i + 1] == next->0);
            let data: GPointer = sorted[i].data;
            let ghost linked_before = self.nodes@;
            self.nodes[id] = Some(GSList { data, next });
            proof {
                assert forall|j: int| 0 <= j <= i implies #[trigger] self.nodes@[now[j] as int]
                    == Some(
                    GSList {
                        data: sorted@[j].data,
                        next: crate::list::next_id(now, j),
                    },
                ) by {
                    if j < i {
                        assert(now[j] != now[i as int]);
                        assert(linked_before[now[j] as int] is Some);
                    }
                }
            }
            i = i + 1;
        }
        self.head = if sorted.len() > 0 {
            Some(sorted[0].id)
        } else {
            None
        };
        self.ids = Ghost(now);
        proof {
            assert(now.len() > 0 ==> now[0] == sorted@[0].id);
            assert(self@ =~= crate::sort::mapped(sorted@, crate::list::held_data())) by {
                assert forall|j: int| 0 <= j < now.len() implies self@[j] == sorted@[j].data by {
                    assert(self.nodes@[now[j] as int] is Some);
                }
            }
            assert forall|id: usize| #[trigger] self.ids().contains(id) implies old(
                self,
            ).ids().contains(id) && self.node_at(id).data == old(self).node_at(id).data by {
                let j = choose|j: int| 0 <= j < now.len() && now[j] == id;
                let m = choose|m: int| 0 <= m < held@.len() && held@[m] == sorted@[j];
                assert(held@.contains(sorted@[j]));
                assert(ids[m] == id);
            }
        }
    }
}

/// The nodes of a list are linked in order: each has the one after it as its next, and the last has
/// none.
pub proof fn law_links_in_order(list: SList)
    requires
        list.wf(),
    ensures
        list@.len() == list.ids().len(),
        list.ids().no_duplicates(),
        forall|i: int|
            0 <= i < list.ids().len() - 1 ==> (#[trigger] list.node_at(list.ids()[i])).next == Some(
                list.ids()[i + 1],
            ),
        list.ids().len() > 0 ==> list.node_at(list.ids().last()).next is None,
{
    let ids = list.ids@;
    assert forall|i: int| 0 <= i < ids.len() - 1 implies (#[trigger] list.node_at(ids[i])).next
        == Some(ids[i + 1]) by {
        assert(list.nodes@[ids[i] as int] is Some);
    }
    if ids.len() > 0 {
        assert(list.nodes@[ids[ids.len() - 1] as int] is Some);
    }
}

} // verus!
