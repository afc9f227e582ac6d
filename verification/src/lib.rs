//! A fixed-capacity associative cache with the CLOCK-Pro replacement policy.
//!
//! Entries live in a circular ring of slots named by stable integer tokens.
//! Three hands sweep the ring: the cold hand evicts or promotes entries on
//! probation, the hot hand demotes hot entries that were not re-referenced,
//! and the test hand retires the ghosts of evicted entries. The structural
//! invariants of the policy (count bounds, the agreement of ring, slot table
//! and key index, and the bounds on the adaptive cold target) are stated as
//! specifications and proved for every public operation.

mod token_ring;
mod model;
mod cache;

pub use cache::ClockProCache;
pub use model::Node;
pub use model::Status;
pub use token_ring::TokenRing;
