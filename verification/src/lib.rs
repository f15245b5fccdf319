//! A chat trigger engine: per-guild sets of trigger strings, each mapped to a
//! response, a matching pass that decides which responses an inbound message
//! earns, and a durable text form of the whole configuration.

pub mod codec;
pub mod listing;
pub mod matching;
pub mod store;
pub mod text;

use vstd::prelude::*;

verus! {

/// Why an index-addressed edit was refused.
#[derive(Clone, Copy, PartialEq, Eq, Structural, Debug)]
pub enum StoreError {
    /// The position named by the caller is outside the current bounds.
    IndexOutOfRange,
    /// A trigger string was empty; empty triggers are rejected at creation.
    EmptyTrigger,
}

} // verus!
