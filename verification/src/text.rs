//! Texts as sequences of characters.

use vstd::prelude::*;
use vstd::string::{StrSliceExecFns, StringExecFns};

verus! {

/// Whether two texts are the same.
pub fn same_text(a: &str, b: &str) -> (same: bool)
    ensures
        same == (a@ == b@),
{
    a.to_owned() == b.to_owned()
}

/// Two texts, one after the other.
pub fn joined(a: &str, b: &str) -> (text: String)
    ensures
        text@ == a@ + b@,
{
    let mut text: String = a.to_owned();
    text.append(b);
    text
}

/// Three texts, one after the other.
pub fn joined3(a: &str, b: &str, c: &str) -> (text: String)
    ensures
        text@ == a@ + b@ + c@,
{
    let mut text: String = a.to_owned();
    text.append(b);
    text.append(c);
    text
}

/// `String::push`: adds a character at the end of a text.
pub assume_specification[ std::string::String::push ](text: &mut std::string::String, c: char)
    ensures
        final(text)@ == old(text)@.push(c),
;

/// How a text is shown for debugging: in quotes, with characters escaped.
pub uninterp spec fn debug_text(text: Seq<char>) -> Seq<char>;

/// The `Debug` text of a `str`: it depends on the text alone. Which characters are escaped, and
/// how, is left open.
#[verifier::external_body]
pub(crate) fn quoted(text: &str) -> (shown: String)
    ensures
        shown@ == debug_text(text@),
{
    format!("{:?}", text)
}

/// Whether a text starts with a character.
pub fn starts_with_char(text: &str, c: char) -> (starts: bool)
    ensures
        starts == (text@.len() > 0 && text@[0] == c),
{
    !text.is_empty() && text.get_char(0) == c
}

/// Whether `prefix` is the start of `text`.
pub open spec fn is_prefix(prefix: Seq<char>, text: Seq<char>) -> bool {
    prefix.len() <= text.len() && text.take(prefix.len() as int) == prefix
}

/// Whether a text starts with another.
pub fn starts_with(text: &str, prefix: &str) -> (starts: bool)
    ensures
        starts == is_prefix(prefix@, text@),
{
    let n: usize = prefix.unicode_len();
    if text.unicode_len() < n {
        return false;
    }
    assert(text@.subrange(0, n as int) =~= text@.take(n as int));
    same_text(text.substring_char(0, n), prefix)
}

/// A text without its first `n` characters.
pub fn skipped(text: &str, n: usize) -> (rest: &str)
    requires
        n <= text@.len(),
    ensures
        rest@ == text@.skip(n as int),
{
    let rest = text.substring_char(n, text.unicode_len());
    assert(rest@ =~= text@.skip(n as int));
    rest
}

/// A copy of an optional text.
pub fn copied(text: Option<&str>) -> (copy: Option<String>)
    ensures
        optional(copy) == (match text {
            Some(t) => Some(t@),
            None => None,
        }),
{
    match text {
        Some(t) => Some(t.to_owned()),
        None => None,
    }
}

/// The characters of an optional text.
pub open spec fn optional(text: Option<String>) -> Option<Seq<char>> {
    match text {
        Some(t) => Some(t@),
        None => None,
    }
}

/// The characters of each of a sequence of texts.
pub open spec fn texts(list: Seq<String>) -> Seq<Seq<char>> {
    Seq::new(list.len(), |i: int| list[i]@)
}

} // verus!
