//! Why a batch was given up. Each error names the place in the input, as an
//! offset in bytes from its start.

use vstd::prelude::*;

verus! {

/// An error ends the batch: nothing is written out.
#[derive(Clone, Copy, Debug, PartialEq, Eq, Structural)]
pub enum AggregateError {
    /// The input ends inside a record: the record that starts at `offset`
    /// has no line separator after it.
    TruncatedInput { offset: usize },
    /// A record does not parse: at `offset` stands a line separator where
    /// the record has no field separator yet, or a value that is not an
    /// optional `-`, one to three digits, a point and one digit.
    Parse { offset: usize },
    /// The record that starts at `offset` has no key.
    EmptyKey { offset: usize },
    /// The store has no room for the key of the record that starts at
    /// `offset`.
    KeyCapacityExceeded { offset: usize },
}

} // verus!
