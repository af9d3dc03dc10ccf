//! Split text into multiple sinks by line.
//!
//! Lines are handed out round robin: every destination has a weight, the
//! number of consecutive lines it takes per round, and the weights of all
//! destinations laid out one after the other form the ring that the lines
//! cycle through.
//!
//! - [`ring`] is the mathematical model of the ring: the assignment table
//!   and the route of every line.
//! - [`shares`] says what every destination holds after a split, and proves
//!   that the shares of a round give the round back.
//! - [`destination`] pairs a sink with its weight.
//! - [`split`] builds the table and splits in-memory lines into in-memory
//!   buffers.
//! - [`dispatcher`] is the same engine as a state machine, for callers that
//!   read and write real streams.
//! - [`cli`] and [`source`] hold the rules of the command line.
pub mod cli;
pub mod destination;
pub mod dispatcher;
pub mod prelude;
pub mod ring;
pub mod shares;
pub mod source;
pub mod split;

pub use crate::destination::Destination;
pub use crate::split::split_round_robin;
