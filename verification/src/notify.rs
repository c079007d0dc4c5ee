//! Destroy notifications.
//!
//! A container whose keys or values have destroy functions does not call them
//! itself: it lists the calls that are due, in order, and its owner makes them.

use vstd::prelude::*;
use crate::ptr_array::GPointer;
use crate::slots::Entry;

verus! {

/// A call that is due: of the key destroy function with a key, or of the value
/// destroy function with a value.
#[derive(Clone, Copy, Debug, PartialEq, Eq, Structural)]
pub enum DestroyNotice {
    Key(GPointer),
    Value(GPointer),
}

/// The call for a key, where keys have a destroy function.
pub open spec fn key_notice(on: bool, key: GPointer) -> Seq<DestroyNotice> {
    if on {
        seq![DestroyNotice::Key(key)]
    } else {
        Seq::empty()
    }
}

/// The call for a value, where values have a destroy function.
pub open spec fn value_notice(on: bool, value: GPointer) -> Seq<DestroyNotice> {
    if on {
        seq![DestroyNotice::Value(value)]
    } else {
        Seq::empty()
    }
}

/// The due calls for entries that leave a container.
pub open spec fn entry_notices(
    entries: Seq<Entry>,
    key_destroy: bool,
    value_destroy: bool,
) -> Seq<DestroyNotice>
    decreases entries.len(),
{
    if entries.len() == 0 {
        Seq::empty()
    } else {
        entry_notices(entries.drop_last(), key_destroy, value_destroy)
            + key_notice(key_destroy, entries.last().key)
            + value_notice(value_destroy, entries.last().value)
    }
}

pub proof fn lemma_no_notices(list: Seq<Entry>)
    ensures
        entry_notices(list, false, false) == Seq::<DestroyNotice>::empty(),
    decreases list.len(),
{
    if list.len() > 0 {
        lemma_no_notices(list.drop_last());
    }
}

pub proof fn lemma_entry_notices_add(
    a: Seq<Entry>,
    b: Seq<Entry>,
    key_destroy: bool,
    value_destroy: bool,
)
    ensures
        entry_notices(a + b, key_destroy, value_destroy) == entry_notices(
            a,
            key_destroy,
            value_destroy,
        ) + entry_notices(b, key_destroy, value_destroy),
    decreases b.len(),
{
    if b.len() == 0 {
        assert(a + b =~= a);
        assert(entry_notices(a, key_destroy, value_destroy) + Seq::<DestroyNotice>::empty()
            =~= entry_notices(a, key_destroy, value_destroy));
    } else {
        assert((a + b).drop_last() =~= a + b.drop_last());
        lemma_entry_notices_add(a, b.drop_last(), key_destroy, value_destroy);
        assert(entry_notices(a + b, key_destroy, value_destroy) =~= entry_notices(
            a,
            key_destroy,
            value_destroy,
        ) + entry_notices(b, key_destroy, value_destroy));
    }
}

pub fn notify_key(notices: &mut Vec<DestroyNotice>, on: bool, key: GPointer)
    ensures
        final(notices)@ == old(notices)@ + key_notice(on, key),
{
    if on {
        notices.push(DestroyNotice::Key(key));
    }
}

pub fn notify_value(notices: &mut Vec<DestroyNotice>, on: bool, value: GPointer)
    ensures
        final(notices)@ == old(notices)@ + value_notice(on, value),
{
    if on {
        notices.push(DestroyNotice::Value(value));
    }
}

/// The calls that are due for entries, in order: for each the key, then the value, as far as they
/// have destroy functions.
pub proof fn law_notices_name_entries(entries: Seq<Entry>)
    ensures
        ({
            let both = entry_notices(entries, true, true);
            &&& both.len() == 2 * entries.len()
            &&& forall|i: int|
                0 <= i < entries.len() ==> {
                    &&& both[2 * i] == DestroyNotice::Key((#[trigger] entries[i]).key)
                    &&& both[2 * i + 1] == DestroyNotice::Value(entries[i].value)
                }
        }),
        ({
            let keys = entry_notices(entries, true, false);
            &&& keys.len() == entries.len()
            &&& forall|i: int|
                0 <= i < entries.len() ==> keys[i] == DestroyNotice::Key(
                    (#[trigger] entries[i]).key,
                )
        }),
        ({
            let values = entry_notices(entries, false, true);
            &&& values.len() == entries.len()
            &&& forall|i: int|
                0 <= i < entries.len() ==> values[i] == DestroyNotice::Value(
                    (#[trigger] entries[i]).value,
                )
        }),
        entry_notices(entries, false, false).len() == 0,
    decreases entries.len(),
{
    if entries.len() > 0 {
        let less = entries.drop_last();
        law_notices_name_entries(less);
        assert forall|i: int| 0 <= i < less.len() implies #[trigger] less[i] == entries[i] by {
        }
        let n = less.len() as int;
        let both = entry_notices(entries, true, true);
        assert forall|i: int| 0 <= i < entries.len() implies both[2 * i] == DestroyNotice::Key(
            (#[trigger] entries[i]).key,
        ) && both[2 * i + 1] == DestroyNotice::Value(entries[i].value) by {
            if i < n {
                assert(less[i] == entries[i]);
            }
        }
        let keys = entry_notices(entries, true, false);
        assert forall|i: int| 0 <= i < entries.len() implies keys[i] == DestroyNotice::Key(
            (#[trigger] entries[i]).key,
        ) by {
            if i < n {
                assert(less[i] == entries[i]);
            }
        }
        let values = entry_notices(entries, false, true);
        assert forall|i: int| 0 <= i < entries.len() implies values[i] == DestroyNotice::Value(
            (#[trigger] entries[i]).value,
        ) by {
            if i < n {
                assert(less[i] == entries[i]);
            }
        }
    }
}

/// The call that is due for a key or a value that has a destroy function, and for none other.
pub proof fn law_notice_of_one(key: GPointer, value: GPointer)
    ensures
        key_notice(true, key) == seq![DestroyNotice::Key(key)],
        value_notice(true, value) == seq![DestroyNotice::Value(value)],
        key_notice(false, key).len() == 0,
        value_notice(false, value).len() == 0,
{
}

} // verus!
