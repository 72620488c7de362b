//! Log sequence numbers.

use vstd::prelude::*;

verus! {

/// A position in the write-ahead log: an opaque, totally ordered 64-bit
/// value. Zero stands for the beginning of time.
#[derive(Clone, Copy, Debug, PartialEq, Eq, Structural, PartialOrd, Ord, Hash)]
pub struct Lsn(pub u64);

impl View for Lsn {
    type V = u64;

    open spec fn view(&self) -> u64 {
        self.0
    }
}

} // verus!
