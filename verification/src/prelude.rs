//! All you need from this crate.
pub use crate::destination::Destination;
pub use crate::split::split_round_robin;
