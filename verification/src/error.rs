//! Why building or sealing a tree fails.

use vstd::prelude::*;

verus! {

/// The ways in which the entries handed to a tree can be unfit.
#[derive(Clone, Copy, Debug, PartialEq, Eq, Structural)]
pub enum Error {
    /// An entry does not begin behind the one that was added before it.
    NonMonotonicOffset {
        /// The offset of the entry that was added before.
        last_pack_offset: u64,
        /// The offset that was refused.
        pack_offset: u64,
    },
    /// A delta names a base of which the pack has no entry.
    OutOfPackRefDelta {
        /// The offset at which the base was expected.
        base_pack_offset: u64,
    },
}

} // verus!
