//! The election itself: ballots, candidates, group restrictions and the
//! counting engine that owns them.
pub mod candidate;
pub mod context;
pub mod restriction;
pub mod vote;

pub use candidate::Candidate;
pub use restriction::Restriction;
