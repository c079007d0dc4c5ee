//! Sequences of optional key/value entries, read as finite maps.

use vstd::prelude::*;

verus! {

/// How many elements of `marks` are true.
pub open spec fn count_true(marks: Seq<bool>) -> nat
    decreases marks.len(),
{
    if marks.len() == 0 {
        0
    } else {
        count_true(marks.drop_last()) + if marks.last() {
            1nat
        } else {
            0nat
        }
    }
}

pub proof fn lemma_count_update(marks: Seq<bool>, i: int, mark: bool)
    requires
        0 <= i < marks.len(),
    ensures
        count_true(marks.update(i, mark)) == count_true(marks) + (if mark {
            1int
        } else {
            0
        }) - (if marks[i] {
            1int
        } else {
            0
        }),
    decreases marks.len(),
{
    let changed = marks.update(i, mark);
    if i == marks.len() - 1 {
        assert(changed.drop_last() =~= marks.drop_last());
    } else {
        assert(changed.drop_last() =~= marks.drop_last().update(i, mark));
        lemma_count_update(marks.drop_last(), i, mark);
    }
}

pub proof fn lemma_count_bound(marks: Seq<bool>)
    ensures
        count_true(marks) <= marks.len(),
    decreases marks.len(),
{
    if marks.len() > 0 {
        lemma_count_bound(marks.drop_last());
    }
}

/// A prefix of true marks is counted in full.
pub proof fn lemma_count_prefix(marks: Seq<bool>, n: int)
    requires
        0 <= n <= marks.len(),
        forall|i: int| 0 <= i < n ==> marks[i],
    ensures
        count_true(marks) >= n,
    decreases marks.len(),
{
    if marks.len() > 0 {
        if n == marks.len() {
            lemma_count_prefix(marks.drop_last(), n - 1);
        } else {
            lemma_count_prefix(marks.drop_last(), n);
        }
    }
}

pub proof fn lemma_count_none(marks: Seq<bool>)
    requires
        forall|i: int| 0 <= i < marks.len() ==> !marks[i],
    ensures
        count_true(marks) == 0,
    decreases marks.len(),
{
    if marks.len() > 0 {
        lemma_count_none(marks.drop_last());
    }
}

pub proof fn lemma_count_monotone(fewer: Seq<bool>, more: Seq<bool>)
    requires
        fewer.len() == more.len(),
        forall|i: int| 0 <= i < fewer.len() && fewer[i] ==> more[i],
    ensures
        count_true(fewer) <= count_true(more),
    decreases fewer.len(),
{
    if fewer.len() > 0 {
        lemma_count_monotone(fewer.drop_last(), more.drop_last());
    }
}

/// Marks past `n` that are all false do not count.
pub proof fn lemma_count_take(marks: Seq<bool>, n: int)
    requires
        0 <= n <= marks.len(),
        forall|i: int| n <= i < marks.len() ==> !marks[i],
    ensures
        count_true(marks.take(n)) == count_true(marks),
    decreases marks.len(),
{
    if n < marks.len() {
        assert(marks.drop_last().take(n) =~= marks.take(n));
        lemma_count_take(marks.drop_last(), n);
    } else {
        assert(marks.take(n) =~= marks);
    }
}

/// A key with its value.
#[derive(Clone, Copy, Debug, PartialEq, Eq, Structural)]
pub struct Entry {
    pub key: usize,
    pub value: usize,
}

/// A slot: empty, or an entry.
pub type Slot = Option<Entry>;

pub open spec fn filled(slots: Seq<Slot>) -> Seq<bool> {
    Seq::new(slots.len(), |p: int| slots[p] is Some)
}

/// Slot `p` holds the key `key`.
pub open spec fn holds(slots: Seq<Slot>, p: int, key: usize) -> bool {
    0 <= p < slots.len() && slots[p] is Some && slots[p]->0.key == key
}

/// No key stands in two slots.
pub open spec fn keys_distinct(slots: Seq<Slot>) -> bool {
    forall|p: int, q: int|
        0 <= p < q < slots.len() && #[trigger] slots[p] is Some && #[trigger] slots[q] is Some
            ==> slots[p]->0.key != slots[q]->0.key
}

/// The map that the slots hold.
pub open spec fn contents(slots: Seq<Slot>) -> Map<usize, usize> {
    Map::new(
        |key: usize| exists|p: int| holds(slots, p, key),
        |key: usize| slots[choose|p: int| holds(slots, p, key)]->0.value,
    )
}

/// The entries in slot order.
pub open spec fn entries(slots: Seq<Slot>) -> Seq<Entry>
    decreases slots.len(),
{
    if slots.len() == 0 {
        Seq::empty()
    } else {
        match slots.last() {
            Some(entry) => entries(slots.drop_last()).push(entry),
            None => entries(slots.drop_last()),
        }
    }
}

pub proof fn lemma_contents_at(slots: Seq<Slot>, p: int)
    requires
        keys_distinct(slots),
        0 <= p < slots.len(),
        slots[p] is Some,
    ensures
        contents(slots).contains_key(slots[p]->0.key),
        contents(slots)[slots[p]->0.key] == slots[p]->0.value,
{
    let key = slots[p]->0.key;
    assert(holds(slots, p, key));
    let q = choose|q: int| holds(slots, q, key);
    assert(holds(slots, q, key));
    if p < q {
        assert(slots[p]->0.key != slots[q]->0.key);
    } else if q < p {
        assert(slots[q]->0.key != slots[p]->0.key);
    }
}

/// The slot of a key of the map.
pub proof fn lemma_contents_slot(slots: Seq<Slot>, key: usize) -> (p: int)
    requires
        keys_distinct(slots),
        contents(slots).contains_key(key),
    ensures
        holds(slots, p, key),
        contents(slots)[key] == slots[p]->0.value,
{
    let p = choose|p: int| holds(slots, p, key);
    lemma_contents_at(slots, p);
    p
}

pub proof fn lemma_clear_slot(slots: Seq<Slot>, p: int)
    requires
        keys_distinct(slots),
        0 <= p < slots.len(),
        slots[p] is Some,
    ensures
        keys_distinct(slots.update(p, None)),
        contents(slots.update(p, None)) == contents(slots).remove(slots[p]->0.key),
{
    let after = slots.update(p, None);
    let key = slots[p]->0.key;
    assert(keys_distinct(after));
    assert forall|k: usize| #[trigger] contents(after).dom().contains(k) implies contents(slots).remove(
        key,
    ).dom().contains(k) && contents(after)[k] == contents(slots)[k] by {
        let q = lemma_contents_slot(after, k);
        lemma_contents_at(slots, q);
        if q < p {
            assert(slots[q]->0.key != slots[p]->0.key);
        } else {
            assert(slots[p]->0.key != slots[q]->0.key);
        }
    }
    assert forall|k: usize| #[trigger] contents(slots).remove(key).dom().contains(k) implies contents(
        after,
    ).dom().contains(k) by {
        let q = lemma_contents_slot(slots, k);
        assert(holds(after, q, k));
    }
    assert(contents(after) =~= contents(slots).remove(key));
}

/// Filling an empty slot with a new key.
pub proof fn lemma_fill_slot(slots: Seq<Slot>, p: int, key: usize, value: usize)
    requires
        keys_distinct(slots),
        0 <= p < slots.len(),
        slots[p] is None,
        !contents(slots).dom().contains(key),
    ensures
        keys_distinct(slots.update(p, Some(Entry { key, value }))),
        contents(slots.update(p, Some(Entry { key, value }))) == contents(slots).insert(key, value),
{
    let after = slots.update(p, Some(Entry { key, value }));
    assert forall|q: int| 0 <= q < slots.len() && #[trigger] slots[q] is Some implies slots[q]->0.key
        != key by {
        lemma_contents_at(slots, q);
    }
    assert forall|a: int, b: int|
        0 <= a < b < after.len() && #[trigger] after[a] is Some && #[trigger] after[b] is Some implies after[a]->0.key
        != after[b]->0.key by {
        if a != p {
            assert(slots[a] is Some);
        }
        if b != p {
            assert(slots[b] is Some);
        }
    }
    assert forall|k: usize| #[trigger] contents(after).dom().contains(k) implies contents(slots).insert(
        key,
        value,
    ).dom().contains(k) && contents(after)[k] == contents(slots).insert(key, value)[k] by {
        let q = lemma_contents_slot(after, k);
        if q != p {
            lemma_contents_at(slots, q);
        }
    }
    assert forall|k: usize|
        #[trigger] contents(slots).insert(key, value).dom().contains(k) implies contents(after).dom().contains(
        k,
    ) by {
        if k == key {
            assert(holds(after, p, k));
        } else {
            let q = lemma_contents_slot(slots, k);
            assert(holds(after, q, k));
        }
    }
    assert(contents(after) =~= contents(slots).insert(key, value));
}

/// Overwriting a filled slot, with its own key or with a new one.
pub proof fn lemma_refill_slot(slots: Seq<Slot>, p: int, key: usize, value: usize)
    requires
        keys_distinct(slots),
        0 <= p < slots.len(),
        slots[p] is Some,
        key == slots[p]->0.key || !contents(slots).dom().contains(key),
    ensures
        keys_distinct(slots.update(p, Some(Entry { key, value }))),
        contents(slots.update(p, Some(Entry { key, value }))) == contents(slots).remove(
            slots[p]->0.key,
        ).insert(key, value),
{
    let cleared = slots.update(p, None);
    lemma_clear_slot(slots, p);
    lemma_fill_slot(cleared, p, key, value);
    assert(cleared.update(p, Some(Entry { key, value })) =~= slots.update(p, Some(Entry { key, value })));
}

pub proof fn lemma_contents_take(slots: Seq<Slot>, n: int)
    requires
        keys_distinct(slots),
        0 <= n <= slots.len(),
        forall|p: int| n <= p < slots.len() ==> slots[p] is None,
    ensures
        keys_distinct(slots.take(n)),
        contents(slots.take(n)) == contents(slots),
        count_true(filled(slots.take(n))) == count_true(filled(slots)),
{
    let less = slots.take(n);
    assert(keys_distinct(less)) by {
        assert forall|p: int, q: int|
            0 <= p < q < less.len() && #[trigger] less[p] is Some && #[trigger] less[q] is Some implies less[p]->0.key
            != less[q]->0.key by {
            assert(slots[p] is Some);
            assert(slots[q] is Some);
        }
    }
    assert forall|k: usize| #[trigger] contents(less).dom().contains(k) implies contents(slots).dom().contains(k)
        && contents(less)[k] == contents(slots)[k] by {
        let p = lemma_contents_slot(less, k);
        lemma_contents_at(slots, p);
    }
    assert forall|k: usize| #[trigger] contents(slots).dom().contains(k) implies contents(less).dom().contains(
        k,
    ) by {
        let p = lemma_contents_slot(slots, k);
        assert(holds(less, p, k));
    }
    assert(contents(less) =~= contents(slots));
    lemma_count_take(filled(slots), n);
    assert(filled(slots).take(n) =~= filled(less));
}

/// The map has as many keys as there are filled slots.
pub proof fn lemma_contents_len(slots: Seq<Slot>)
    requires
        keys_distinct(slots),
    ensures
        contents(slots).dom().finite(),
        contents(slots).dom().len() == count_true(filled(slots)),
        entries(slots).len() == count_true(filled(slots)),
    decreases slots.len(),
{
    if slots.len() == 0 {
        assert(contents(slots) =~= Map::empty());
    } else {
        let last = slots.len() - 1;
        let cleared = slots.update(last, None);
        let less = slots.take(last);
        if slots[last] is Some {
            lemma_clear_slot(slots, last);
            lemma_contents_at(slots, last);
        } else {
            assert(cleared =~= slots);
        }
        lemma_contents_take(cleared, last);
        assert(cleared.take(last) =~= less);
        assert(slots.drop_last() =~= less);
        lemma_contents_len(less);
        assert(filled(slots).drop_last() =~= filled(less));
        if slots[last] is Some {
            let key = slots[last]->0.key;
            assert(contents(slots) =~= contents(less).insert(key, slots[last]->0.value));
            assert(contents(slots).dom() =~= contents(less).dom().insert(key));
        }
    }
}

/// The entry list holds exactly the pairs of the map, each key once.
pub proof fn lemma_entries(slots: Seq<Slot>)
    requires
        keys_distinct(slots),
    ensures
        forall|i: int|
            0 <= i < entries(slots).len() ==> {
                &&& contents(slots).contains_key((#[trigger] entries(slots)[i]).key)
                &&& contents(slots)[entries(slots)[i].key] == entries(slots)[i].value
            },
        forall|k: usize| #[trigger]
            contents(slots).contains_key(k) ==> entries(slots).contains(
                Entry { key: k, value: contents(slots)[k] },
            ),
        forall|i: int, j: int|
            0 <= i < j < entries(slots).len() ==> (#[trigger] entries(slots)[i]).key != (
            #[trigger] entries(slots)[j]).key,
    decreases slots.len(),
{
    if slots.len() == 0 {
    } else {
        let last = slots.len() - 1;
        let less = slots.drop_last();
        let cleared = slots.update(last, None);
        if slots[last] is Some {
            lemma_clear_slot(slots, last);
            lemma_contents_at(slots, last);
        } else {
            assert(cleared =~= slots);
        }
        lemma_contents_take(cleared, last);
        assert(cleared.take(last) =~= less);
        lemma_entries(less);
        assert forall|k: usize| #[trigger] contents(slots).contains_key(k) implies entries(
            slots,
        ).contains(
                Entry { key: k, value: contents(slots)[k] },
            ) by {
            let e = Entry { key: k, value: contents(slots)[k] };
            if slots[last] is Some && k == slots[last]->0.key {
                assert(entries(slots)[entries(slots).len() - 1] == e);
            } else {
                assert(contents(less).contains_key(k));
                let i = choose|i: int| 0 <= i < entries(less).len() && entries(less)[i] == e;
                assert(entries(slots)[i] == e);
            }
        }
    }
}

} // verus!
