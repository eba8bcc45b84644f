use vstd::prelude::*;

verus! {

/// What can go wrong while a timeline is built or emitted.
#[derive(Clone, Copy, Debug, PartialEq, Eq)]
pub enum StatemapError {
    /// The calendar fields do not form a valid date and time, or the moment
    /// lies outside what `u64` nanoseconds since the Unix epoch can hold.
    InvalidTimestamp,
    /// The JSON encoder refused a value.
    SerializationFailure,
}

} // verus!
