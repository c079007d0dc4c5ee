//! Interned strings.
//!
//! A [`Quark`] is a non-zero number that stands for a string. Quark 0 stands
//! for no string. An interned string lives as long as the process.

use vstd::prelude::*;
use vstd::hash_map::StringHashMap;

verus! {

/// The number of an interned string.
pub type Quark = u32;

/// The table of quarks grows by this many places at a time.
const QUARK_BLOCK_SIZE: usize = 2048;

/// `String::leak`: gives up the ownership of a text, which then lives as long as the process and
/// stays as it is.
#[verifier::external_body]
fn leaked(text: String) -> (kept: &'static str)
    ensures
        kept@ == text@,
{
    text.leak()
}

/// An interned string, which lives as long as the process: a copy of what was handed in, or what
/// was handed in itself.
enum Interned {
    Copied(&'static str),
    Static(&'static str),
}

impl View for Interned {
    type V = Seq<char>;

    closed spec fn view(&self) -> Seq<char> {
        match self {
            Interned::Copied(text) => text@,
            Interned::Static(text) => text@,
        }
    }
}

impl Interned {
    fn as_str(&self) -> (text: &'static str)
        ensures
            text@ == self@,
    {
        match self {
            Interned::Copied(text) => text,
            Interned::Static(text) => text,
        }
    }
}

/// The interned strings.
pub struct QuarkTable {
    ht: StringHashMap<Quark>,
    quarks: Vec<Option<Interned>>,
    next_id: Quark,
}

impl View for QuarkTable {
    type V = Seq<Seq<char>>;

    /// The interned strings in the order of their quarks: the first has quark 1.
    closed spec fn view(&self) -> Seq<Seq<char>> {
        Seq::new((self.next_id - 1) as nat, |i: int| self.quarks@[i + 1]->0@)
    }
}

/// The quark of a string in a table; 0 where the string is not interned.
pub open spec fn quark_of(table: Seq<Seq<char>>, text: Seq<char>) -> int {
    if table.contains(text) {
        table.index_of(text) + 1
    } else {
        0
    }
}

/// The table with a string interned.
pub open spec fn with_string(table: Seq<Seq<char>>, text: Seq<char>) -> Seq<Seq<char>> {
    if table.contains(text) {
        table
    } else {
        table.push(text)
    }
}

impl QuarkTable {
    /// The invariant of a table.
    pub closed spec fn wf(&self) -> bool {
        &&& 1 <= self.next_id <= self.quarks@.len()
        &&& forall|i: int| 1 <= i < self.next_id ==> #[trigger] self.quarks@[i] is Some
        &&& forall|i: int|
            1 <= i < self.next_id ==> self.ht@.contains_key((#[trigger] self.quarks@[i])->0@)
                && self.ht@[self.quarks@[i]->0@] == i
        &&& forall|text: Seq<char>| #[trigger]
            self.ht@.contains_key(text) ==> 1 <= self.ht@[text] < self.next_id
                && self.quarks@[self.ht@[text] as int]->0@ == text
    }

    /// Whether the interned strings are copies of what was handed in, in the order of their quarks.
    pub closed spec fn copies(&self) -> Seq<bool> {
        Seq::new((self.next_id - 1) as nat, |i: int| self.quarks@[i + 1]->0 is Copied)
    }

    /// There is a quark left for a string that is not interned yet.
    pub open spec fn has_room(&self, text: Seq<char>) -> bool {
        self@.contains(text) || self@.len() + 1 < u32::MAX
    }

    proof fn lemma_quark(&self, text: Seq<char>)
        requires
            self.wf(),
        ensures
            self@.contains(text) == self.ht@.contains_key(text),
            self.ht@.contains_key(text) ==> self.ht@[text] == quark_of(self@, text),
    {
        if self.ht@.contains_key(text) {
            let q = self.ht@[text];
            assert(self@[q - 1] == text);
            let i = self@.index_of(text);
            assert(self@[i] == text);
            assert(self.quarks@[i + 1]->0@ == text);
        }
        if self@.contains(text) {
            let i = choose|i: int| 0 <= i < self@.len() && self@[i] == text;
            assert(self.quarks@[i + 1]->0@ == text);
        }
    }

    /// A table without strings.
    pub fn new() -> (table: Self)
        ensures
            table.wf(),
            table@ == Seq::<Seq<char>>::empty(),
            table.copies() == Seq::<bool>::empty(),
    {
        let mut table = QuarkTable { ht: StringHashMap::new(), quarks: Vec::new(), next_id: 1 };
        table.add_block();
        assert(table@ =~= Seq::<Seq<char>>::empty());
        assert(table.copies() =~= Seq::<bool>::empty());
        table
    }

    /// Make room for another block of quarks.
    fn add_block(&mut self)
        ensures
            final(self).ht@ == old(self).ht@,
            final(self).next_id == old(self).next_id,
            final(self).quarks@.len() == old(self).quarks@.len() + QUARK_BLOCK_SIZE,
            forall|i: int|
                0 <= i < old(self).quarks@.len() ==> #[trigger] final(self).quarks@[i]
                    == old(self).quarks@[i],
    {
        let mut added: usize = 0;
        while added < QUARK_BLOCK_SIZE
            invariant
                added <= QUARK_BLOCK_SIZE,
                self.ht@ == old(self).ht@,
                self.next_id == old(self).next_id,
                self.quarks@.len() == old(self).quarks@.len() + added,
                forall|i: int|
                    0 <= i < old(self).quarks@.len() ==> #[trigger] self.quarks@[i]
                        == old(self).quarks@[i],
            decreases QUARK_BLOCK_SIZE - added,
        {
            self.quarks.push(None);
            added = added + 1;
        }
    }

    /// Give a string that is not interned the next quark.
    fn quark_new(&mut self, string: &str, interned: Interned) -> (quark: Quark)
        requires
            old(self).wf(),
            interned@ == string@,
            !old(self)@.contains(string@),
            old(self)@.len() + 1 < u32::MAX,
        ensures
            final(self).wf(),
            final(self)@ == old(self)@.push(string@),
            final(self).copies() == old(self).copies().push(interned is Copied),
            quark == old(self)@.len() + 1,
            quark == quark_of(final(self)@, string@),
    {
        proof {
            self.lemma_quark(string@);
        }
        if self.next_id as usize == self.quarks.len() {
            self.add_block();
        }
        let quark: Quark = self.next_id;
        self.quarks[quark as usize] = Some(interned);
        self.ht.insert(string.to_owned(), quark);
        self.next_id = self.next_id + 1;
        assert(self@ =~= old(self)@.push(string@));
        assert(self.copies() =~= old(self).copies().push(interned is Copied));
        proof {
            assert(self@[quark - 1] == string@);
            self.lemma_quark(string@);
        }
        quark
    }

    /// Whether there is a quark for a string, or one left for it.
    pub fn can_intern(&self, string: &str) -> (can: bool)
        requires
            self.wf(),
        ensures
            can == self.has_room(string@),
    {
        self.next_id < u32::MAX || quark_try_string(self, Some(string)) != 0
    }
}

/// The quark of a string that is interned; 0 where it is not, or where there is no string.
pub fn quark_try_string(table: &QuarkTable, string: Option<&str>) -> (quark: Quark)
    requires
        table.wf(),
    ensures
        quark == (match string {
            Some(text) => quark_of(table@, text@),
            None => 0,
        }),
{
    match string {
        None => 0,
        Some(text) => {
            proof {
                table.lemma_quark(text@);
            }
            match table.ht.get(text) {
                Some(quark) => *quark,
                None => 0,
            }
        },
    }
}

/// The quark of a string, which is interned (as a copy) where it was not; 0 for no string.
pub fn quark_from_string(table: &mut QuarkTable, string: Option<&str>) -> (quark: Quark)
    requires
        old(table).wf(),
        string matches Some(text) ==> old(table).has_room(text@),
    ensures
        final(table).wf(),
        match string {
            Some(text) => {
                &&& final(table)@ == with_string(old(table)@, text@)
                &&& final(table).copies() == (if old(table)@.contains(text@) {
                    old(table).copies()
                } else {
                    old(table).copies().push(true)
                })
                &&& quark == quark_of(final(table)@, text@)
                &&& quark > 0
            },
            None => final(table)@ == old(table)@ && final(table).copies() == old(table).copies()
                && quark == 0,
        },
{
    match string {
        None => 0,
        Some(text) => {
            proof {
                table.lemma_quark(text@);
            }
            let known: Quark = quark_try_string(table, Some(text));
            if known != 0 {
                return known;
            }
            table.quark_new(text, Interned::Copied(leaked(text.to_owned())))
        },
    }
}

/// The quark of a string that lives as long as the process, which is interned, without a copy,
/// where it was not; 0 for no string.
pub fn quark_from_static_string(table: &mut QuarkTable, string: Option<&'static str>) -> (quark:
    Quark)
    requires
        old(table).wf(),
        string matches Some(text) ==> old(table).has_room(text@),
    ensures
        final(table).wf(),
        match string {
            Some(text) => {
                &&& final(table)@ == with_string(old(table)@, text@)
                &&& final(table).copies() == (if old(table)@.contains(text@) {
                    old(table).copies()
                } else {
                    old(table).copies().push(false)
                })
                &&& quark == quark_of(final(table)@, text@)
                &&& quark > 0
            },
            None => final(table)@ == old(table)@ && final(table).copies() == old(table).copies()
                && quark == 0,
        },
{
    match string {
        None => 0,
        Some(text) => {
            proof {
                table.lemma_quark(text@);
            }
            let known: Quark = quark_try_string(table, Some(text));
            if known != 0 {
                return known;
            }
            table.quark_new(text, Interned::Static(text))
        },
    }
}

/// The string of a quark; none for 0 and for numbers that are no quarks yet.
pub fn quark_to_string(table: &QuarkTable, quark: Quark) -> (string: Option<&'static str>)
    requires
        table.wf(),
    ensures
        string is Some == (1 <= quark <= table@.len()),
        string matches Some(text) ==> text@ == table@[quark - 1],
{
    if quark == 0 || quark >= table.next_id {
        return None;
    }
    match &table.quarks[quark as usize] {
        Some(text) => Some(text.as_str()),
        None => None,
    }
}

/// The interned form of a string, which is interned where it was not; none for no string.
pub fn intern_string(table: &mut QuarkTable, string: Option<&str>) -> (interned: Option<
    &'static str,
>)
    requires
        old(table).wf(),
        string matches Some(text) ==> old(table).has_room(text@),
    ensures
        final(table).wf(),
        match string {
            Some(text) => {
                &&& final(table)@ == with_string(old(table)@, text@)
                &&& final(table).copies() == (if old(table)@.contains(text@) {
                    old(table).copies()
                } else {
                    old(table).copies().push(true)
                })
                &&& interned matches Some(same) && same@ == text@
            },
            None => final(table)@ == old(table)@ && final(table).copies() == old(table).copies()
                && interned is None,
        },
{
    match string {
        None => None,
        Some(text) => {
            let quark: Quark = quark_from_string(table, Some(text));
            quark_to_string(table, quark)
        },
    }
}

/// The interned form of a string that lives as long as the process, which is interned, without a
/// copy, where it was not; none for no string.
pub fn intern_static_string(table: &mut QuarkTable, string: Option<&'static str>) -> (interned:
    Option<&'static str>)
    requires
        old(table).wf(),
        string matches Some(text) ==> old(table).has_room(text@),
    ensures
        final(table).wf(),
        match string {
            Some(text) => {
                &&& final(table)@ == with_string(old(table)@, text@)
                &&& final(table).copies() == (if old(table)@.contains(text@) {
                    old(table).copies()
                } else {
                    old(table).copies().push(false)
                })
                &&& interned matches Some(same) && same@ == text@
            },
            None => final(table)@ == old(table)@ && final(table).copies() == old(table).copies()
                && interned is None,
        },
{
    match string {
        None => None,
        Some(text) => {
            let quark: Quark = quark_from_static_string(table, Some(text));
            quark_to_string(table, quark)
        },
    }
}

/// No string is interned twice.
pub proof fn law_strings_are_distinct(table: QuarkTable)
    requires
        table.wf(),
    ensures
        table@.no_duplicates(),
{
    assert forall|i: int, j: int|
        0 <= i < table@.len() && 0 <= j < table@.len() && i != j implies table@[i] != table@[j] by {
        assert(table.quarks@[i + 1]->0@ == table@[i]);
        assert(table.quarks@[j + 1]->0@ == table@[j]);
    }
}

/// A string and its quark stand for each other: the quark of an interned string leads back to the
/// string, and the string of a quark to the quark.
pub proof fn law_quark_and_string(table: QuarkTable, text: Seq<char>, quark: Quark)
    requires
        table.wf(),
    ensures
        table@.contains(text) ==> {
            &&& 1 <= quark_of(table@, text) <= table@.len()
            &&& table@[quark_of(table@, text) - 1] == text
        },
        1 <= quark <= table@.len() ==> quark_of(table@, table@[quark - 1]) == quark,
{
    if table@.contains(text) {
        assert(table@[table@.index_of(text)] == text);
    }
    if 1 <= quark <= table@.len() {
        let other = table@[quark - 1];
        assert(table@.contains(other));
        law_strings_are_distinct(table);
        assert(table@[table@.index_of(other)] == other);
    }
}

/// Two strings have one quark only if they are the same.
pub proof fn law_distinct_strings_distinct_quarks(table: QuarkTable, a: Seq<char>, b: Seq<char>)
    requires
        table.wf(),
        table@.contains(a),
        table@.contains(b),
        a != b,
    ensures
        quark_of(table@, a) != quark_of(table@, b),
{
    assert(table@[table@.index_of(a)] == a);
    assert(table@[table@.index_of(b)] == b);
}

/// Interning another string changes neither the quark of an interned string nor its string.
pub proof fn law_quarks_are_stable(table: QuarkTable, text: Seq<char>, other: Seq<char>)
    requires
        table.wf(),
        table@.contains(text),
    ensures
        quark_of(with_string(table@, other), text) == quark_of(table@, text),
        with_string(table@, other)[quark_of(table@, text) - 1] == text,
{
    let after = with_string(table@, other);
    let i = table@.index_of(text);
    assert(table@[i] == text);
    assert(after[i] == text);
    assert(after.contains(text));
    let j = after.index_of(text);
    assert(after[j] == text);
    law_strings_are_distinct(table);
    if j < table@.len() {
        assert(table@[j] == text);
    } else {
        assert(after[j] == other);
    }
}

/// Interning a string puts it at the end where it is new, and changes nothing where it is not; its
/// quark is its position, counted from 1. A string that is not interned has quark 0.
pub proof fn law_interning(table: Seq<Seq<char>>, text: Seq<char>)
    ensures
        table.contains(text) ==> with_string(table, text) == table,
        !table.contains(text) ==> {
            &&& with_string(table, text) == table.push(text)
            &&& quark_of(table, text) == 0
            &&& quark_of(with_string(table, text), text) == table.len() + 1
        },
        forall|i: int|
            0 <= i < table.len() && table[i] == text && (forall|j: int|
                0 <= j < i ==> #[trigger] table[j] != text) && table.no_duplicates() ==> quark_of(
                table,
                text,
            ) == i + 1,
{
    if !table.contains(text) {
        let after = table.push(text);
        assert(after[table.len() as int] == text);
        let i = after.index_of(text);
        assert(after[i] == text);
        if i < table.len() {
            assert(table[i] == text);
        }
    } else {
        let i = table.index_of(text);
        assert(table[i] == text);
    }
}

} // verus!
