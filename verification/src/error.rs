//! The ways in which an operation on a slab can fail.

use vstd::prelude::*;

verus! {

/// Why an operation on a slab was refused.
#[derive(Debug, Clone, Copy, Hash, PartialEq, Eq, Structural)]
pub enum Error {
    /// The requested capacity cannot be told apart from the "no slot" marker.
    TooLarge,
    /// Every slot is occupied.
    Full,
    /// The slot is out of range, or names no element.
    InvalidSlot,
    /// The slab holds no element. No operation returns it: popping from an
    /// empty slab gives `None`.
    Empty,
}

impl Error {
    /// The sentence that describes the error.
    pub open spec fn message(self) -> Seq<char> {
        match self {
            Error::TooLarge => "Capacity is too large for the slot type"@,
            Error::Full => "Slab is full and cannot accept more elements"@,
            Error::InvalidSlot => "Invalid slot or slot doesn't contain an element"@,
            Error::Empty => "Slab is empty"@,
        }
    }

    /// The sentence that describes the error, as a string.
    pub fn to_string(&self) -> (s: String)
        ensures
            s@ == self.message(),
    {
        match self {
            Error::TooLarge => "Capacity is too large for the slot type".to_owned(),
            Error::Full => "Slab is full and cannot accept more elements".to_owned(),
            Error::InvalidSlot => "Invalid slot or slot doesn't contain an element".to_owned(),
            Error::Empty => "Slab is empty".to_owned(),
        }
    }
}

} // verus!
