use vstd::prelude::*;

verus! {

/// The errors the store reports.
#[derive(Clone, Copy, Debug, PartialEq, Eq, Structural)]
pub enum KvError {
    /// The underlying storage cannot take the operation (for instance, the
    /// generation counter has no room left for a fresh segment).
    Io,
    /// Segment text did not replay as a well-formed stream of records.
    Serde,
    /// A `remove` asked for a key that is absent.
    KeyNotFound,
    /// The index pointed at a record that is not a `Set`.
    InvalidCommand,
}

} // verus!
