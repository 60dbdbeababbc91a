//! The library's error type.

use vstd::prelude::*;

verus! {

/// What went wrong, with a text for people.
#[derive(Debug)]
pub enum Error {
    /// The input is not what the operation takes.
    InvalidData(String),
    /// The operation itself failed.
    Execution(String),
}

} // verus!
