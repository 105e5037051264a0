//! Core of the `unnest` transform of a structured-event language: runtime
//! fan-out of an array attribute into sibling events, and the compile-time
//! array-inversion that predicts the resulting shapes without running it.
use vstd::prelude::*;

pub mod path;
pub mod internal_events;
pub mod kind;
pub mod unnest;
pub mod value;

verus! {

} // verus!
