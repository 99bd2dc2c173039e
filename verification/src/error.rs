//! Error type of the engine.
use vstd::prelude::*;

verus! {

/// Engine error: a storage fault or an invalid request, each with a short
/// static reason.
#[derive(Clone, Copy, Debug, PartialEq, Eq)]
pub enum SgdbError {
    Storage(&'static str),
    Invalid(&'static str),
}

} // verus!
