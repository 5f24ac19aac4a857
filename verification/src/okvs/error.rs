use vstd::prelude::*;

verus! {

/// Why an encoding could not be built.
#[derive(Clone, Copy, Debug, PartialEq, Eq)]
pub enum Error {
    /// Two pairs of the input have the same key.
    DuplicateKey,
    /// Elimination reached the row with this index, in sorted order, and
    /// found no set bit left in it.
    ZeroRow(usize),
    /// The input holds more pairs than the store was sized for.
    InputTooLarge,
}

} // verus!
