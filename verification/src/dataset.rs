//! Data lists: values keyed by quarks.
//!
//! An entry may come with a destroy function. A list does not call it: the
//! functions that take an entry out return the call that is due.

use std::collections::HashMap;
use vstd::prelude::*;
use crate::ptr_array::GPointer;
use crate::quark::Quark;

verus! {

/// From this many entries on, a list has an index.
pub const INDEX_THRESHOLD: usize = 33;

/// An entry: a key, its data, and the destroy function of the data.
pub struct DataElt<D> {
    pub key: Quark,
    pub data: GPointer,
    pub destroy: Option<D>,
}

/// A call of a destroy function that is due.
pub struct DestroyCall<D> {
    pub destroy: D,
    pub data: GPointer,
}

/// A data list.
pub struct DataList<D> {
    entries: Vec<DataElt<D>>,
    index: Option<HashMap<Quark, usize>>,
}

impl<D> View for DataList<D> {
    type V = Seq<DataElt<D>>;

    /// The entries in order.
    closed spec fn view(&self) -> Seq<DataElt<D>> {
        self.entries@
    }
}

/// The position of a key, or the number of entries.
pub open spec fn key_index<D>(entries: Seq<DataElt<D>>, key: Quark, from: int) -> int
    decreases entries.len() - from,
{
    if from < 0 || from >= entries.len() {
        entries.len() as int
    } else if entries[from].key == key {
        from
    } else {
        key_index(entries, key, from + 1)
    }
}

/// No key stands in two entries.
pub open spec fn keys_distinct<D>(entries: Seq<DataElt<D>>) -> bool {
    forall|i: int, j: int|
        0 <= i < j < entries.len() ==> (#[trigger] entries[i]).key != (#[trigger] entries[j]).key
}

/// The entries without the one at `i`, whose place the last one takes.
pub open spec fn removed_at<D>(entries: Seq<DataElt<D>>, i: int) -> Seq<DataElt<D>> {
    entries.update(i, entries.last()).drop_last()
}

/// The call that is due for an entry.
pub open spec fn due_call<D>(entry: DataElt<D>) -> Option<DestroyCall<D>> {
    match entry.destroy {
        Some(destroy) => Some(DestroyCall { destroy, data: entry.data }),
        None => None,
    }
}

/// The calls that are due for entries, in order.
pub open spec fn due_calls<D>(entries: Seq<DataElt<D>>) -> Seq<DestroyCall<D>>
    decreases entries.len(),
{
    if entries.len() == 0 {
        Seq::empty()
    } else {
        match due_call(entries.last()) {
            Some(call) => due_calls(entries.drop_last()).push(call),
            None => due_calls(entries.drop_last()),
        }
    }
}

proof fn lemma_key_index<D>(entries: Seq<DataElt<D>>, key: Quark, from: int)
    requires
        0 <= from <= entries.len(),
    ensures
        from <= key_index(entries, key, from) <= entries.len(),
        key_index(entries, key, from) < entries.len() ==> entries[key_index(
            entries,
            key,
            from,
        )].key == key,
        forall|i: int|
            from <= i < key_index(entries, key, from) ==> (#[trigger] entries[i]).key != key,
    decreases entries.len() - from,
{
    if from < entries.len() && entries[from].key != key {
        lemma_key_index(entries, key, from + 1);
    }
}

/// The position of the key of an entry.
proof fn lemma_key_index_is<D>(entries: Seq<DataElt<D>>, key: Quark, i: int)
    requires
        keys_distinct(entries),
        0 <= i < entries.len(),
        entries[i].key == key,
    ensures
        key_index(entries, key, 0) == i,
{
    lemma_key_index(entries, key, 0);
    let k = key_index(entries, key, 0);
    if k < i {
        assert(entries[k].key != entries[i].key);
    }
}

impl<D> Default for DataList<D> {
    fn default() -> (list: Self)
        ensures
            list.wf(),
            list@ == Seq::<DataElt<D>>::empty(),
    {
        DataList::new()
    }
}

impl<D> DataList<D> {
    /// The invariant of a list. A long list has an index, and a short one has none.
    pub closed spec fn wf(&self) -> bool {
        &&& self.consistent()
        &&& self.entries@.len() >= INDEX_THRESHOLD ==> self.index is Some
        &&& self.entries@.len() <= INDEX_THRESHOLD / 2 ==> self.index is None
    }

    /// No key stands in two entries, and an index has the position of every key.
    spec fn consistent(&self) -> bool {
        &&& keys_distinct(self.entries@)
        &&& self.index matches Some(index) ==> {
            &&& forall|i: int|
                0 <= i < self.entries@.len() ==> index@.contains_key(
                    (#[trigger] self.entries@[i]).key,
                ) && index@[self.entries@[i].key] == i
            &&& forall|key: Quark| #[trigger]
                index@.contains_key(key) ==> index@[key] < self.entries@.len()
                    && self.entries@[index@[key] as int].key == key
        }
    }

    /// The position of a key, or the number of entries.
    pub open spec fn place(&self, key: Quark) -> int {
        key_index(self@, key, 0)
    }

    /// An empty list.
    #[must_use]
    pub fn new() -> (list: Self)
        ensures
            list.wf(),
            list@ == Seq::<DataElt<D>>::empty(),
    {
        DataList { entries: Vec::new(), index: None }
    }

    /// Whether the list is empty.
    #[must_use]
    pub fn is_empty(&self) -> (empty: bool)
        ensures
            empty == (self@.len() == 0),
    {
        self.entries.len() == 0
    }

    /// The number of entries.
    #[must_use]
    pub fn len(&self) -> (length: usize)
        ensures
            length == self@.len(),
    {
        self.entries.len()
    }

    fn find_index(&self, key_id: Quark) -> (place: Option<usize>)
        requires
            self.wf(),
        ensures
            place is Some == (self.place(key_id) < self@.len()),
            place matches Some(i) ==> i == self.place(key_id) && i < self@.len() && self@[i as int].key
                == key_id,
            place is None ==> forall|i: int| 0 <= i < self@.len() ==> (#[trigger] self@[i]).key
                != key_id,
    {
        broadcast use vstd::std_specs::hash::group_hash_axioms;

        proof {
            lemma_key_index(self.entries@, key_id, 0);
        }
        if let Some(index) = &self.index {
            return match index.get(&key_id) {
                Some(place) => {
                    proof {
                        assert(index@.contains_key(key_id));
                        lemma_key_index_is(self.entries@, key_id, *place as int);
                    }
                    Some(*place)
                },
                None => None,
            };
        }
        let mut i: usize = 0;
        while i < self.entries.len()
            invariant
                i <= self.entries@.len(),
                forall|j: int| 0 <= j < i ==> (#[trigger] self.entries@[j]).key != key_id,
                keys_distinct(self.entries@),
            decreases self.entries@.len() - i,
        {
            if self.entries[i].key == key_id {
                proof {
                    lemma_key_index_is(self.entries@, key_id, i as int);
                }
                return Some(i);
            }
            i = i + 1;
        }
        None
    }

    /// Build the index of a list that has become long.
    fn maybe_enable_index(&mut self)
        requires
            old(self).index is None,
            old(self).consistent(),
        ensures
            final(self).wf(),
            final(self)@ == old(self)@,
            final(self).index is Some == (old(self)@.len() >= INDEX_THRESHOLD),
    {
        broadcast use vstd::std_specs::hash::group_hash_axioms;

        if self.entries.len() >= INDEX_THRESHOLD {
            let mut index: HashMap<Quark, usize> = HashMap::new();
            let mut i: usize = 0;
            while i < self.entries.len()
                invariant
                    i <= self.entries@.len(),
                    self.entries@ == old(self).entries@,
                    keys_distinct(self.entries@),
                    forall|j: int|
                        0 <= j < i ==> index@.contains_key((#[trigger] self.entries@[j]).key)
                            && index@[self.entries@[j].key] == j,
                    forall|key: Quark| #[trigger]
                        index@.contains_key(key) ==> index@[key] < i
                            && self.entries@[index@[key] as int].key == key,
                decreases self.entries@.len() - i,
            {
                index.insert(self.entries[i].key, i);
                i = i + 1;
            }
            self.index = Some(index);
        }
    }

    /// Remove the entry at a position; the last one takes its place. A list that has become short
    /// loses its index.
    fn remove_at(&mut self, place: usize) -> (entry: DataElt<D>)
        requires
            old(self).wf(),
            place < old(self)@.len(),
        ensures
            final(self).wf(),
            final(self)@ == removed_at(old(self)@, place as int),
            entry == old(self)@[place as int],
    {
        broadcast use vstd::std_specs::hash::group_hash_axioms;

        let ghost before = self.entries@;
        let key: Quark = self.entries[place].key;
        let entry = self.entries.swap_remove(place);
        proof {
            assert(self.entries@ =~= removed_at(before, place as int));
            assert(keys_distinct(self.entries@)) by {
                assert forall|i: int, j: int| 0 <= i < j < self.entries@.len() implies (
                #[trigger] self.entries@[i]).key != (#[trigger] self.entries@[j]).key by {
                    let a = if i == place {
                        before.len() - 1
                    } else {
                        i
                    };
                    let b = if j == place {
                        before.len() - 1
                    } else {
                        j
                    };
                    assert(self.entries@[i] == before[a] && self.entries@[j] == before[b]);
                    if a < b {
                        assert(before[a].key != before[b].key);
                    } else {
                        assert(before[b].key != before[a].key);
                    }
                }
            }
        }
        if self.entries.len() <= INDEX_THRESHOLD / 2 {
            self.index = None;
        } else if let Some(index) = self.index.take() {
            let mut index = index;
            let ghost was = index@;
            index.remove(&key);
            if place < self.entries.len() {
                index.insert(self.entries[place].key, place);
            }
            proof {
                let now = self.entries@;
                let last = before.len() - 1;
                assert forall|i: int| 0 <= i < now.len() implies index@.contains_key(
                    (#[trigger] now[i]).key,
                ) && index@[now[i].key] == i by {
                    if i != place {
                        assert(now[i] == before[i]);
                        assert(was.contains_key(before[i].key));
                        if i < place {
                            assert(before[i].key != before[place as int].key);
                        } else {
                            assert(before[place as int].key != before[i].key);
                        }
                        if place < now.len() {
                            assert(before[i].key != before[last].key);
                        }
                    }
                }
                assert forall|k: Quark| #[trigger] index@.contains_key(k) implies index@[k]
                    < now.len() && now[index@[k] as int].key == k by {
                    if !(place < now.len() && k == now[place as int].key) {
                        assert(was.contains_key(k));
                        let i = was[k] as int;
                        assert(before[i].key == k);
                        assert(i != place);
                        if i == last {
                            assert(now[place as int] == before[last]);
                        }
                    }
                }
            }
            self.index = Some(index);
        }
        entry
    }

    /// Set the entry of a key. Returns the call that is due for its old data.
    fn assign(&mut self, key_id: Quark, data: GPointer, destroy: Option<D>) -> (due: Option<
        DestroyCall<D>,
    >)
        requires
            old(self).wf(),
        ensures
            final(self).wf(),
            ({
                let i = old(self).place(key_id);
                let entry = DataElt { key: key_id, data, destroy };
                if i < old(self)@.len() {
                    &&& final(self)@ == old(self)@.update(i, entry)
                    &&& due == due_call(old(self)@[i])
                } else {
                    &&& final(self)@ == old(self)@.push(entry)
                    &&& due is None
                }
            }),
    {
        broadcast use vstd::std_specs::hash::group_hash_axioms;

        let ghost before = self.entries@;
        let entry = DataElt { key: key_id, data, destroy };
        match self.find_index(key_id) {
            Some(place) => {
                let mut entry = entry;
                core::mem::swap(&mut entry, &mut self.entries[place]);
                proof {
                    assert(self.entries@ =~= before.update(
                        place as int,
                        DataElt { key: key_id, data, destroy },
                    ));
                    assert forall|i: int| 0 <= i < before.len() implies (
                    #[trigger] self.entries@[i]).key == before[i].key by {
                    }
                    assert(keys_distinct(self.entries@)) by {
                        assert forall|i: int, j: int| 0 <= i < j < self.entries@.len() implies (
                        #[trigger] self.entries@[i]).key != (#[trigger] self.entries@[j]).key by {
                            assert(before[i].key != before[j].key);
                        }
                    }
                }
                match entry.destroy {
                    Some(destroy) => Some(DestroyCall { destroy, data: entry.data }),
                    None => None,
                }
            },
            None => {
                let place: usize = self.entries.len();
                self.entries.push(entry);
                if let Some(index) = self.index.take() {
                    let mut index = index;
                    index.insert(key_id, place);
                    self.index = Some(index);
                    assert(forall|i: int| 0 <= i < before.len() ==> #[trigger] self.entries@[i]
                        == before[i]);
                } else {
                    self.maybe_enable_index();
                }
                None
            },
        }
    }

    /// Remove the entry of a key.
    fn unassign(&mut self, key_id: Quark) -> (entry: Option<DataElt<D>>)
        requires
            old(self).wf(),
        ensures
            final(self).wf(),
            ({
                let i = old(self).place(key_id);
                if i < old(self)@.len() {
                    &&& entry == Some(old(self)@[i])
                    &&& final(self)@ == removed_at(old(self)@, i)
                } else {
                    entry is None && final(self)@ == old(self)@
                }
            }),
    {
        match self.find_index(key_id) {
            Some(place) => Some(self.remove_at(place)),
            None => None,
        }
    }
}

/// Make a list empty; no destroy function is called.
pub fn datalist_init<D>(datalist: &mut DataList<D>)
    ensures
        final(datalist).wf(),
        final(datalist)@ == Seq::<DataElt<D>>::empty(),
{
    datalist.entries = Vec::new();
    datalist.index = None;
}

/// Make a list empty. Returns the calls that are due, in the order of the entries.
pub fn datalist_clear<D>(datalist: &mut DataList<D>) -> (due: Vec<DestroyCall<D>>)
    requires
        old(datalist).wf(),
    ensures
        final(datalist).wf(),
        final(datalist)@ == Seq::<DataElt<D>>::empty(),
        due@ == due_calls(old(datalist)@),
{
    let ghost all = datalist@;
    let mut entries: Vec<DataElt<D>> = Vec::new();
    core::mem::swap(&mut entries, &mut datalist.entries);
    datalist.index = None;
    let mut backwards: Vec<DestroyCall<D>> = Vec::new();
    let mut due: Vec<DestroyCall<D>> = Vec::new();
    assert(all.take(all.len() as int) =~= all);
    assert(due_calls(all) =~= due_calls(all) + Seq::<DestroyCall<D>>::empty());
    loop
        invariant
            datalist.entries@ == Seq::<DataElt<D>>::empty(),
            datalist.index is None,
            entries@.len() <= all.len(),
            entries@ == all.take(entries@.len() as int),
            due_calls(all) == due_calls(entries@) + backwards@.reverse(),
        ensures
            entries@.len() == 0,
            due_calls(all) == backwards@.reverse(),
        decreases entries@.len(),
    {
        let ghost before = entries@;
        let ghost calls = backwards@;
        match entries.pop() {
            None => {
                assert(due_calls(entries@) + backwards@.reverse() =~= backwards@.reverse());
                break ;
            },
            Some(entry) => {
                assert(before.drop_last() =~= entries@);
                assert(before.last() == entry);
                if let Some(destroy) = entry.destroy {
                    let call = DestroyCall { destroy, data: entry.data };
                    backwards.push(call);
                    assert(due_calls(entries@).push(call) + calls.reverse() =~= due_calls(entries@)
                        + backwards@.reverse());
                }
                assert(entries@ =~= all.take(entries@.len() as int));
            },
        }
    }
    let ghost order = backwards@;
    loop
        invariant
            backwards@.len() + due@.len() == order.len(),
            backwards@ == order.take(backwards@.len() as int),
            due@ == order.reverse().take(due@.len() as int),
        ensures
            due@ == order.reverse(),
        decreases backwards@.len(),
    {
        let ghost before = backwards@;
        let ghost calls = due@;
        match backwards.pop() {
            None => {
                assert(order.reverse().take(order.len() as int) =~= order.reverse());
                break ;
            },
            Some(call) => {
                due.push(call);
                assert(order.reverse()[calls.len() as int] == call);
                assert(due@ =~= order.reverse().take(due@.len() as int));
                assert(backwards@ =~= order.take(backwards@.len() as int));
            },
        }
    }
    due
}

/// The data of a key; 0 where there is none, and for key 0.
#[must_use]
pub fn datalist_id_get_data<D>(datalist: &DataList<D>, key_id: Quark) -> (data: GPointer)
    requires
        datalist.wf(),
    ensures
        data == (if key_id != 0 && datalist.place(key_id) < datalist@.len() {
            datalist@[datalist.place(key_id)].data
        } else {
            0
        }),
{
    if key_id == 0 {
        return 0;
    }
    match datalist.find_index(key_id) {
        Some(place) => datalist.entries[place].data,
        None => 0,
    }
}

/// Set the data of a key and its destroy function; data 0 removes the key. Key 0 is ignored.
/// Returns the call that is due for the old data.
pub fn datalist_id_set_data_full<D>(
    datalist: &mut DataList<D>,
    key_id: Quark,
    data: GPointer,
    destroy: Option<D>,
) -> (due: Option<DestroyCall<D>>)
    requires
        old(datalist).wf(),
    ensures
        final(datalist).wf(),
        ({
            let i = old(datalist).place(key_id);
            let found = i < old(datalist)@.len();
            if key_id == 0 || (data == 0 && !found) {
                due is None && final(datalist)@ == old(datalist)@
            } else if data == 0 {
                &&& due == due_call(old(datalist)@[i])
                &&& final(datalist)@ == removed_at(old(datalist)@, i)
            } else if found {
                &&& due == due_call(old(datalist)@[i])
                &&& final(datalist)@ == old(datalist)@.update(
                    i,
                    DataElt { key: key_id, data, destroy },
                )
            } else {
                &&& due is None
                &&& final(datalist)@ == old(datalist)@.push(DataElt { key: key_id, data, destroy })
            }
        }),
{
    if key_id == 0 {
        return None;
    }
    if data == 0 {
        return match datalist.unassign(key_id) {
            Some(entry) => match entry.destroy {
                Some(destroy) => Some(DestroyCall { destroy, data: entry.data }),
                None => None,
            },
            None => None,
        };
    }
    datalist.assign(key_id, data, destroy)
}

/// Remove a key without a call of its destroy function. Returns its data; 0 where there is none,
/// and for key 0.
#[must_use]
pub fn datalist_id_remove_no_notify<D>(datalist: &mut DataList<D>, key_id: Quark) -> (data: GPointer)
    requires
        old(datalist).wf(),
    ensures
        final(datalist).wf(),
        ({
            let i = old(datalist).place(key_id);
            if key_id != 0 && i < old(datalist)@.len() {
                &&& data == old(datalist)@[i].data
                &&& final(datalist)@ == removed_at(old(datalist)@, i)
            } else {
                data == 0 && final(datalist)@ == old(datalist)@
            }
        }),
{
    if key_id == 0 {
        return 0;
    }
    match datalist.unassign(key_id) {
        Some(entry) => entry.data,
        None => 0,
    }
}

/// Set the data of a key, without a destroy function; as [`datalist_id_set_data_full`].
pub fn datalist_id_set_data<D>(datalist: &mut DataList<D>, key_id: Quark, data: GPointer) -> (due:
    Option<DestroyCall<D>>)
    requires
        old(datalist).wf(),
    ensures
        final(datalist).wf(),
        ({
            let i = old(datalist).place(key_id);
            let found = i < old(datalist)@.len();
            if key_id == 0 || (data == 0 && !found) {
                due is None && final(datalist)@ == old(datalist)@
            } else if data == 0 {
                &&& due == due_call(old(datalist)@[i])
                &&& final(datalist)@ == removed_at(old(datalist)@, i)
            } else if found {
                &&& due == due_call(old(datalist)@[i])
                &&& final(datalist)@ == old(datalist)@.update(
                    i,
                    DataElt { key: key_id, data, destroy: None },
                )
            } else {
                &&& due is None
                &&& final(datalist)@ == old(datalist)@.push(
                    DataElt { key: key_id, data, destroy: None },
                )
            }
        }),
{
    datalist_id_set_data_full(datalist, key_id, data, None)
}

/// The keys of the entries.
pub open spec fn keys_of<D>(entries: Seq<DataElt<D>>) -> Seq<Quark> {
    Seq::new(entries.len(), |i: int| entries[i].key)
}

/// A walk over some keys: `func` is called with each key that the list then has, its data, the
/// list and the data so far, and gives the list and the data for the next call.
pub open spec fn visits<
    D,
    U,
    F: Fn(Quark, GPointer, DataList<D>, U) -> (DataList<D>, U),
>(
    func: F,
    keys: Seq<Quark>,
    list: DataList<D>,
    data: U,
    last_list: DataList<D>,
    last_data: U,
) -> bool
    decreases keys.len(),
{
    if keys.len() == 0 {
        last_list == list && last_data == data
    } else {
        let i = list.place(keys[0]);
        if i < list@.len() {
            exists|next_list: DataList<D>, next_data: U| #[trigger]
                func.ensures((keys[0], list@[i].data, list, data), (next_list, next_data)) && visits(
                    func,
                    keys.skip(1),
                    next_list,
                    next_data,
                    last_list,
                    last_data,
                )
        } else {
            visits(func, keys.skip(1), list, data, last_list, last_data)
        }
    }
}

/// Call `func` for the keys that the list has now, in order, as far as it still has them when
/// their turn comes. `func` may change the list. Returns the list and the last data.
pub fn datalist_foreach<
    D,
    U,
    F: Fn(Quark, GPointer, DataList<D>, U) -> (DataList<D>, U),
>(datalist: DataList<D>, func: F, data: U) -> (result: (DataList<D>, U))
    requires
        datalist.wf(),
        forall|key: Quark, value: GPointer, list: DataList<D>, data: U|
            list.wf() ==> #[trigger] func.requires((key, value, list, data)),
        forall|
            key: Quark,
            value: GPointer,
            list: DataList<D>,
            data: U,
            after: (DataList<D>, U),
        | #[trigger]
            func.ensures((key, value, list, data), after) && list.wf() ==> after.0.wf(),
    ensures
        result.0.wf(),
        visits(func, keys_of(datalist@), datalist, data, result.0, result.1),
{
    let mut keys: Vec<Quark> = Vec::new();
    let mut i: usize = 0;
    while i < datalist.entries.len()
        invariant
            i <= datalist.entries@.len(),
            keys@ == keys_of(datalist.entries@).take(i as int),
        decreases datalist.entries@.len() - i,
    {
        keys.push(datalist.entries[i].key);
        assert(keys@ =~= keys_of(datalist.entries@).take(i + 1));
        i = i + 1;
    }
    assert(keys@ =~= keys_of(datalist@));
    let ghost start = datalist;
    let ghost first = data;
    let mut list: DataList<D> = datalist;
    let mut now: U = data;
    let mut k: usize = 0;
    assert(keys@.skip(0) =~= keys@);
    while k < keys.len()
        invariant
            k <= keys@.len(),
            list.wf(),
            forall|key: Quark, value: GPointer, list: DataList<D>, data: U|
                list.wf() ==> #[trigger] func.requires((key, value, list, data)),
            forall|
                key: Quark,
                value: GPointer,
                list: DataList<D>,
                data: U,
                after: (DataList<D>, U),
            | #[trigger]
                func.ensures((key, value, list, data), after) && list.wf() ==> after.0.wf(),
            forall|last_list: DataList<D>, last_data: U| #[trigger]
                visits(func, keys@.skip(k as int), list, now, last_list, last_data) ==> visits(
                    func,
                    keys@,
                    start,
                    first,
                    last_list,
                    last_data,
                ),
        decreases keys@.len() - k,
    {
        let key: Quark = keys[k];
        let ghost rest = keys@.skip(k as int);
        let ghost before = list;
        let ghost so_far = now;
        assert(rest[0] == key);
        assert(rest.skip(1) =~= keys@.skip(k + 1));
        if let Some(place) = list.find_index(key) {
            let value: GPointer = list.entries[place].data;
            let (next_list, next_data) = func(key, value, list, now);
            list = next_list;
            now = next_data;
        }
        proof {
            assert forall|last_list: DataList<D>, last_data: U| #[trigger]
                visits(func, keys@.skip(k + 1), list, now, last_list, last_data) implies visits(
                func,
                keys@,
                start,
                first,
                last_list,
                last_data,
            ) by {
                assert(visits(func, rest, before, so_far, last_list, last_data));
            }
        }
        k = k + 1;
    }
    assert(visits(func, keys@.skip(k as int), list, now, list, now));
    (list, now)
}

/// A key stands in at most one entry of a list.
pub proof fn law_keys_are_distinct<D>(list: DataList<D>)
    requires
        list.wf(),
    ensures
        keys_distinct(list@),
{
}

/// What is set under a key, with its destroy function, is what is got from it, and the other keys
/// keep their entries.
pub proof fn law_set_then_get<D>(
    before: DataList<D>,
    after: DataList<D>,
    key: Quark,
    data: GPointer,
    destroy: Option<D>,
    other: Quark,
)
    requires
        before.wf(),
        after.wf(),
        after@ == (if before.place(key) < before@.len() {
            before@.update(before.place(key), DataElt { key, data, destroy })
        } else {
            before@.push(DataElt { key, data, destroy })
        }),
    ensures
        after.place(key) < after@.len(),
        after@[after.place(key)] == (DataElt { key, data, destroy }),
        other != key ==> {
            &&& (after.place(other) < after@.len()) == (before.place(other) < before@.len())
            &&& after.place(other) < after@.len() ==> after@[after.place(other)]
                == before@[before.place(other)]
        },
{
    lemma_key_index(before@, key, 0);
    lemma_key_index(before@, other, 0);
    lemma_key_index(after@, other, 0);
    let i = before.place(key);
    lemma_key_index_is(after@, key, i);
    if other != key {
        let o = before.place(other);
        if o < before@.len() {
            assert(after@[o] == before@[o]);
            lemma_key_index_is(after@, other, o);
        }
        let a = after.place(other);
        if a < after@.len() {
            assert(before@[a] == after@[a]);
            lemma_key_index_is(before@, other, a);
        }
    }
}

/// A removed key has no data any more, and the other keys keep theirs.
pub proof fn law_remove_then_get<D>(
    before: DataList<D>,
    after: DataList<D>,
    key: Quark,
    other: Quark,
)
    requires
        before.wf(),
        after.wf(),
        before.place(key) < before@.len(),
        after@ == removed_at(before@, before.place(key)),
    ensures
        after.place(key) == after@.len(),
        other != key ==> {
            &&& (after.place(other) < after@.len()) == (before.place(other) < before@.len())
            &&& after.place(other) < after@.len() ==> after@[after.place(other)]
                == before@[before.place(other)]
        },
{
    lemma_key_index(before@, key, 0);
    lemma_key_index(before@, other, 0);
    lemma_key_index(after@, key, 0);
    lemma_key_index(after@, other, 0);
    let i = before.place(key);
    let last = before@.len() - 1;
    let k = after.place(key);
    if k < after@.len() {
        let b = if k == i {
            last
        } else {
            k
        };
        assert(after@[k] == before@[b]);
        lemma_key_index_is(before@, key, b);
    }
    if other != key {
        let o = before.place(other);
        if o < before@.len() {
            let a = if o == last {
                i
            } else {
                o
            };
            assert(after@[a] == before@[o]);
            lemma_key_index_is(after@, other, a);
        }
        let a = after.place(other);
        if a < after@.len() {
            let b = if a == i {
                last
            } else {
                a
            };
            assert(before@[b] == after@[a]);
            lemma_key_index_is(before@, other, b);
        }
    }
}

/// Where a key stands in a list: at the entry that has it, if there is one.
pub proof fn law_key_is_found<D>(list: DataList<D>, key: Quark)
    requires
        list.wf(),
    ensures
        0 <= list.place(key) <= list@.len(),
        (list.place(key) < list@.len()) == exists|i: int|
            0 <= i < list@.len() && (#[trigger] list@[i]).key == key,
        forall|i: int|
            0 <= i < list@.len() && (#[trigger] list@[i]).key == key ==> list.place(key) == i,
        list.place(key) < list@.len() ==> list@[list.place(key)].key == key,
        forall|i: int, j: int|
            0 <= i < j < list@.len() ==> (#[trigger] list@[i]).key != (#[trigger] list@[j]).key,
{
    lemma_key_index(list@, key, 0);
    assert forall|i: int| 0 <= i < list@.len() && (#[trigger] list@[i]).key == key implies list.place(
        key,
    ) == i by {
        lemma_key_index_is(list@, key, i);
    }
}

/// Taking an entry out takes that one and no other.
pub proof fn law_removed_entry<D>(entries: Seq<DataElt<D>>, i: int)
    requires
        0 <= i < entries.len(),
        forall|a: int, b: int|
            0 <= a < b < entries.len() ==> (#[trigger] entries[a]).key != (
            #[trigger] entries[b]).key,
    ensures
        removed_at(entries, i).len() == entries.len() - 1,
        forall|e: DataElt<D>| #[trigger]
            removed_at(entries, i).contains(e) == (entries.contains(e) && e.key != entries[i].key),
{
    let after = removed_at(entries, i);
    let last = entries.len() - 1;
    assert forall|e: DataElt<D>| #[trigger] after.contains(e) == (entries.contains(e) && e.key
        != entries[i].key) by {
        if after.contains(e) {
            let j = choose|j: int| 0 <= j < after.len() && after[j] == e;
            let k = if j == i {
                last
            } else {
                j
            };
            assert(entries[k] == e);
            if k < i {
                assert(entries[k].key != entries[i].key);
            } else {
                assert(entries[i].key != entries[k].key);
            }
        }
        if entries.contains(e) && e.key != entries[i].key {
            let k = choose|k: int| 0 <= k < entries.len() && entries[k] == e;
            if k == last {
                assert(after[i] == e);
            } else {
                assert(after[k] == e);
            }
        }
    }
}

/// The calls that are due for entries, by their positions: for those with a destroy function, in
/// order, each with its own function and data.
pub proof fn law_due_calls<D>(entries: Seq<DataElt<D>>) -> (at: Seq<int>)
    ensures
        due_calls(entries).len() == at.len(),
        forall|j: int|
            0 <= j < at.len() ==> {
                &&& 0 <= #[trigger] at[j] < entries.len()
                &&& entries[at[j]].destroy == Some(due_calls(entries)[j].destroy)
                &&& entries[at[j]].data == due_calls(entries)[j].data
            },
        forall|j: int, k: int| 0 <= j < k < at.len() ==> #[trigger] at[j] < #[trigger] at[k],
        forall|i: int|
            0 <= i < entries.len() && (#[trigger] entries[i]).destroy is Some ==> at.contains(i),
    decreases entries.len(),
{
    if entries.len() == 0 {
        Seq::empty()
    } else {
        let n = entries.len() - 1;
        let before = law_due_calls(entries.drop_last());
        let at = if entries[n].destroy is Some {
            before.push(n)
        } else {
            before
        };
        assert forall|i: int|
            0 <= i < entries.len() && (#[trigger] entries[i]).destroy is Some implies at.contains(
            i,
        ) by {
            if i < n {
                assert(entries.drop_last()[i].destroy is Some);
                let j = choose|j: int| 0 <= j < before.len() && before[j] == i;
                assert(at[j] == i);
            } else {
                assert(at[before.len() as int] == i);
            }
        }
        at
    }
}

/// The call that is due for one entry that is replaced or removed.
pub proof fn law_due_call<D>(entry: DataElt<D>)
    ensures
        (due_call(entry) is Some) == (entry.destroy is Some),
        due_call(entry) matches Some(call) ==> entry.destroy == Some(call.destroy) && call.data
            == entry.data,
{
}

/// [`datalist_foreach`] calls the function with each key and its data, in order: one that leaves
/// the list as it is and takes note of what it is called with has all entries in the end.
pub proof fn law_foreach_reaches_all<
    D,
    U,
    F: Fn(Quark, GPointer, DataList<D>, U) -> (DataList<D>, U),
>(
    list: DataList<D>,
    func: F,
    first: U,
    last_list: DataList<D>,
    last: U,
    record: spec_fn(U) -> Seq<(Quark, GPointer)>,
)
    requires
        list.wf(),
        visits(func, keys_of(list@), list, first, last_list, last),
        forall|
            key: Quark,
            data: GPointer,
            before: DataList<D>,
            so_far: U,
            after: (DataList<D>, U),
        | #[trigger]
            func.ensures((key, data, before, so_far), after) ==> after.0 == before && record(
                after.1,
            ) == record(so_far).push((key, data)),
    ensures
        last_list == list,
        record(last) == record(first) + Seq::new(
            list@.len(),
            |i: int| (list@[i].key, list@[i].data),
        ),
{
    let keys = keys_of(list@);
    assert(keys.skip(0) =~= keys);
    lemma_visits_all(list, func, 0, first, last_list, last, record);
    let pairs = Seq::new(list@.len(), |i: int| (list@[i].key, list@[i].data));
    assert(pairs.skip(0) =~= pairs);
}

proof fn lemma_visits_all<
    D,
    U,
    F: Fn(Quark, GPointer, DataList<D>, U) -> (DataList<D>, U),
>(
    list: DataList<D>,
    func: F,
    from: int,
    first: U,
    last_list: DataList<D>,
    last: U,
    record: spec_fn(U) -> Seq<(Quark, GPointer)>,
)
    requires
        list.wf(),
        0 <= from <= list@.len(),
        visits(func, keys_of(list@).skip(from), list, first, last_list, last),
        forall|
            key: Quark,
            data: GPointer,
            before: DataList<D>,
            so_far: U,
            after: (DataList<D>, U),
        | #[trigger]
            func.ensures((key, data, before, so_far), after) ==> after.0 == before && record(
                after.1,
            ) == record(so_far).push((key, data)),
    ensures
        last_list == list,
        record(last) == record(first) + Seq::new(
            list@.len(),
            |i: int| (list@[i].key, list@[i].data),
        ).skip(from),
    decreases list@.len() - from,
{
    let keys = keys_of(list@).skip(from);
    let pairs = Seq::new(list@.len(), |i: int| (list@[i].key, list@[i].data));
    if from == list@.len() {
        assert(record(first) + pairs.skip(from) =~= record(first));
    } else {
        lemma_key_index_is(list@, keys[0], from);
        let (next_list, next) = choose|next_list: DataList<D>, next: U| #[trigger]
            func.ensures((keys[0], list@[from].data, list, first), (next_list, next)) && visits(
                func,
                keys.skip(1),
                next_list,
                next,
                last_list,
                last,
            );
        assert(keys.skip(1) =~= keys_of(list@).skip(from + 1));
        lemma_visits_all(list, func, from + 1, next, last_list, last, record);
        assert(record(first).push((keys[0], list@[from].data)) + pairs.skip(from + 1)
            =~= record(first) + pairs.skip(from));
    }
}

} // verus!
