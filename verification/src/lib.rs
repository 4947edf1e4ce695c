//! The delta-resolution graph of a pack: which entries are full objects, which
//! are deltas, and on which base each delta depends.
//!
//! The graph is built in one pass over the entries of a pack ([`tree`]), sealed,
//! and then walked so that each delta is decoded after its base ([`traverse`]).
//! What holds of every tree and of every walk is stated in [`laws`] and
//! [`traverse_proofs`], over the models in [`model`] and [`traverse_model`].
//!
//! Beside the graph stand a few smaller parts of a git implementation: the names
//! of namespaces, the first message of a client, the description of a commit, the
//! recording of changes between trees, and what to write for `HEAD` after a clone.

pub mod bytes;
pub mod checkout;
pub mod describe;
pub mod error;
pub mod fetch;
pub mod invariants;
pub mod item;
pub mod laws;
pub mod model;
pub mod namespace;
pub mod pack_index;
pub mod recorder;
pub mod spans;
pub mod transport;
pub mod traverse;
pub mod traverse_model;
pub mod traverse_proofs;
pub mod tree;
