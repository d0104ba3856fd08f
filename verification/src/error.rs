//! Errors of the library.
use vstd::prelude::*;

verus! {

/// What can go wrong when decoding an update or building a style.
#[derive(Debug, Clone, Copy, PartialEq, Eq, Structural)]
pub enum Error {
    DecodeError,
    InvalidExpand,
}

} // verus!
