//! Flags of an option entry.

use vstd::prelude::*;

verus! {

/// No flags.
pub const NONE: i32 = 0;

/// The option does not appear in help texts.
pub const HIDDEN: i32 = 1;

/// The option appears in the main section of help texts.
pub const IN_MAIN: i32 = 2;

/// A switch stores `false` in place of `true`.
pub const REVERSE: i32 = 4;

/// A callback takes no argument.
pub const NO_ARG: i32 = 8;

/// A callback's argument may be left out.
pub const OPTIONAL_ARG: i32 = 32;

/// The option is not found under its group's name.
pub const NOALIAS: i32 = 64;

} // verus!
