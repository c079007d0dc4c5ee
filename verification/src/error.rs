//! Error values with a domain, a code and a message.
//!
//! The functions that set an error take the place for it, or none where the
//! caller does not want the error. They never overwrite an error: where one is
//! there already they return a warning instead, for the caller to log.

use vstd::prelude::*;
use crate::quark::Quark;
use crate::text::joined;

verus! {

/// The start of the warning about an error that would have been overwritten; its message follows.
pub const ERROR_OVERWRITTEN_WARNING: &'static str =
    "GError set over the top of a previous GError or uninitialized memory.\nThis indicates a bug in someone's code. You must ensure an error is NULL before it's set.\nThe overwriting error message was: ";

/// An error: a domain, a code within the domain, and a message for people.
#[derive(Debug, Clone, PartialEq, Eq)]
pub struct Error {
    domain: Quark,
    code: i32,
    message: String,
}

/// What an error holds.
pub struct ErrorView {
    pub domain: Quark,
    pub code: i32,
    pub message: Seq<char>,
}

impl View for Error {
    type V = ErrorView;

    closed spec fn view(&self) -> ErrorView {
        ErrorView { domain: self.domain, code: self.code, message: self.message@ }
    }
}

/// What the place for an error holds.
pub open spec fn held(slot: Option<Error>) -> Option<ErrorView> {
    match slot {
        Some(error) => Some(error@),
        None => None,
    }
}

/// The warning about an error with this message that would have overwritten another.
pub open spec fn overwrite_warning(message: Seq<char>) -> Seq<char> {
    ERROR_OVERWRITTEN_WARNING@ + message
}

impl Error {
    /// An error with a message.
    #[must_use]
    pub fn new(domain: Quark, code: i32, message: &str) -> (error: Self)
        ensures
            error@ == (ErrorView { domain, code, message: message@ }),
    {
        Error { domain, code, message: message.to_owned() }
    }

    /// An error with a message that is taken as it is.
    #[must_use]
    pub fn new_literal(domain: Quark, code: i32, message: &str) -> (error: Self)
        ensures
            error@ == (ErrorView { domain, code, message: message@ }),
    {
        Error { domain, code, message: message.to_owned() }
    }

    /// The domain.
    #[must_use]
    pub fn domain(&self) -> (domain: Quark)
        ensures
            domain == self@.domain,
    {
        self.domain
    }

    /// The code within the domain.
    #[must_use]
    pub fn code(&self) -> (code: i32)
        ensures
            code == self@.code,
    {
        self.code
    }

    /// The message.
    #[must_use]
    pub fn message(&self) -> (message: &str)
        ensures
            message@ == self@.message,
    {
        self.message.as_str()
    }

    /// Whether the error has this domain and code.
    #[must_use]
    pub fn matches(&self, domain: Quark, code: i32) -> (yes: bool)
        ensures
            yes == (self@.domain == domain && self@.code == code),
    {
        error_matches(self, domain, code)
    }
}

/// An error with a message.
#[must_use]
pub fn error_new(domain: Quark, code: i32, message: &str) -> (error: Error)
    ensures
        error@ == (ErrorView { domain, code, message: message@ }),
{
    Error::new(domain, code, message)
}

/// An error with a message that is taken as it is.
#[must_use]
pub fn error_new_literal(domain: Quark, code: i32, message: &str) -> (error: Error)
    ensures
        error@ == (ErrorView { domain, code, message: message@ }),
{
    Error::new_literal(domain, code, message)
}

/// The end of an error.
pub fn error_free(error: Error) {
}

/// A copy of an error.
#[must_use]
pub fn error_copy(error: &Error) -> (copy: Error)
    ensures
        copy@ == error@,
{
    Error { domain: error.domain, code: error.code, message: error.message.clone() }
}

/// Whether an error has this domain and code.
#[must_use]
pub fn error_matches(error: &Error, domain: Quark, code: i32) -> (yes: bool)
    ensures
        yes == (error@.domain == domain && error@.code == code),
{
    error.domain == domain && error.code == code
}

/// Put a new error into an empty place. Returns a warning where the place is not empty, which
/// leaves it as it is.
pub fn set_error(
    err: Option<&mut Option<Error>>,
    domain: Quark,
    code: i32,
    message: &str,
) -> (warning: Option<String>)
    ensures
        err matches Some(slot) ==> held(*final(slot)) == (match *slot {
            Some(before) => Some(before@),
            None => Some(ErrorView { domain, code, message: message@ }),
        }),
        crate::text::optional(warning) == (match err {
            Some(slot) => if *slot is Some {
                Some(overwrite_warning(message@))
            } else {
                None
            },
            None => None,
        }),
{
    match err {
        None => None,
        Some(slot) => {
            if slot.is_none() {
                *slot = Some(Error::new(domain, code, message));
                None
            } else {
                Some(joined(ERROR_OVERWRITTEN_WARNING, message))
            }
        },
    }
}

/// As [`set_error`], with a message that is taken as it is.
pub fn set_error_literal(
    err: Option<&mut Option<Error>>,
    domain: Quark,
    code: i32,
    message: &str,
) -> (warning: Option<String>)
    ensures
        err matches Some(slot) ==> held(*final(slot)) == (match *slot {
            Some(before) => Some(before@),
            None => Some(ErrorView { domain, code, message: message@ }),
        }),
        crate::text::optional(warning) == (match err {
            Some(slot) => if *slot is Some {
                Some(overwrite_warning(message@))
            } else {
                None
            },
            None => None,
        }),
{
    set_error(err, domain, code, message)
}

/// Move an error into an empty place; without a place it ends. Returns a warning where the place
/// is not empty, which leaves it as it is and ends the error.
pub fn propagate_error(dest: Option<&mut Option<Error>>, src: Error) -> (warning: Option<String>)
    ensures
        dest matches Some(slot) ==> held(*final(slot)) == (match *slot {
            Some(before) => Some(before@),
            None => Some(src@),
        }),
        crate::text::optional(warning) == (match dest {
            Some(slot) => if *slot is Some {
                Some(overwrite_warning(src@.message))
            } else {
                None
            },
            None => None,
        }),
{
    match dest {
        None => None,
        Some(slot) => {
            if slot.is_none() {
                *slot = Some(src);
                None
            } else {
                Some(joined(ERROR_OVERWRITTEN_WARNING, src.message()))
            }
        },
    }
}

/// Empty the place for an error.
pub fn clear_error(err: Option<&mut Option<Error>>)
    ensures
        err matches Some(slot) ==> *final(slot) is None,
{
    if let Some(slot) = err {
        *slot = None;
    }
}

/// Put a prefix before the message of the error, where there is one.
pub fn prefix_error(err: Option<&mut Option<Error>>, prefix: &str)
    ensures
        err matches Some(slot) ==> held(*final(slot)) == (match *slot {
            Some(before) => Some(
                ErrorView { message: prefix@ + before@.message, ..before@ },
            ),
            None => None,
        }),
{
    if let Some(slot) = err {
        if let Some(error) = slot.take() {
            let message: String = joined(prefix, error.message());
            *slot = Some(Error { domain: error.domain, code: error.code, message });
        }
    }
}

/// As [`prefix_error`], with a prefix that is taken as it is.
pub fn prefix_error_literal(err: Option<&mut Option<Error>>, prefix: &str)
    ensures
        err matches Some(slot) ==> held(*final(slot)) == (match *slot {
            Some(before) => Some(
                ErrorView { message: prefix@ + before@.message, ..before@ },
            ),
            None => None,
        }),
{
    prefix_error(err, prefix)
}

/// Move an error into an empty place, with a prefix before its message; without a place it ends.
/// Returns a warning where the place is not empty, which leaves it as it is and ends the error.
pub fn propagate_prefixed_error(
    dest: Option<&mut Option<Error>>,
    src: Error,
    prefix: &str,
) -> (warning: Option<String>)
    ensures
        dest matches Some(slot) ==> held(*final(slot)) == (match *slot {
            Some(before) => Some(before@),
            None => Some(ErrorView { message: prefix@ + src@.message, ..src@ }),
        }),
        crate::text::optional(warning) == (match dest {
            Some(slot) => if *slot is Some {
                Some(overwrite_warning(src@.message))
            } else {
                None
            },
            None => None,
        }),
{
    match dest {
        None => None,
        Some(slot) => {
            if slot.is_none() {
                *slot = Some(src);
                prefix_error(Some(slot), prefix);
                None
            } else {
                Some(joined(ERROR_OVERWRITTEN_WARNING, src.message()))
            }
        },
    }
}

/// Take the error out of its place.
#[must_use]
pub fn steal_error(err: &mut Option<Error>) -> (error: Option<Error>)
    ensures
        error == *old(err),
        *final(err) is None,
{
    err.take()
}

/// The warning about an error that would have been overwritten ends with that error's message.
pub proof fn law_warning_names_the_lost_error(message: Seq<char>)
    ensures
        overwrite_warning(message).len() >= message.len(),
        overwrite_warning(message).skip(overwrite_warning(message).len() - message.len()) == message,
        overwrite_warning(message).take(overwrite_warning(message).len() - message.len())
            == ERROR_OVERWRITTEN_WARNING@,
{
    let all = overwrite_warning(message);
    let n = all.len() - message.len();
    assert(all.skip(n) =~= message);
    assert(all.take(n) =~= ERROR_OVERWRITTEN_WARNING@);
}

/// What a place for an error holds is the error in it, with domain, code and message.
pub proof fn law_held(slot: Option<Error>)
    ensures
        (held(slot) is Some) == (slot is Some),
        slot matches Some(error) ==> held(slot) == Some(error@),
{
}

} // verus!
