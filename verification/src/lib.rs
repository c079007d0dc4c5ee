//! Verified containers and utilities.

use vstd::prelude::*;

pub mod arena;
pub mod array;
pub mod callback;
pub mod dataset;
pub mod error;
pub mod growth;
pub mod hash;
pub mod list;
pub mod messages;
pub mod notify;
pub mod number;
pub mod option;
pub mod probe;
pub mod ptr_array;
pub mod quark;
pub mod queue;
pub mod refcount;
pub mod slots;
pub mod sort;
pub mod text;
pub mod tree;

verus! {

/// An unsigned number of 32 bits, as lengths are given.
pub type UInt = u32;

} // verus!
