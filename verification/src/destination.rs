//! Destination for splitting.
use vstd::prelude::*;
use vstd::utf8::{decode_utf8, valid_utf8};
use std::string::FromUtf8Error;

verus! {

/// The `sink` with metadata for the splitting operation.
#[derive(Debug, Clone)]
pub struct Destination<S> {
    /// The number of lines written to the sink per round.
    pub assigned_lines: usize,
    /// Where the splitting operation writes data to.
    pub sink: S,
}

/// The weights of a list of destinations, in the order of the list.
pub open spec fn weights_of<S>(destinations: Seq<Destination<S>>) -> Seq<usize> {
    Seq::new(destinations.len(), |k: int| destinations[k].assigned_lines)
}

impl<S> Destination<S> {
    /// Creates a [`Destination`].
    #[inline]
    pub fn new(sink: S, assigned_lines: usize) -> (destination: Self)
        ensures
            destination.sink == sink,
            destination.assigned_lines == assigned_lines,
    {
        Self { sink, assigned_lines }
    }

    /// Creates a [`Destination`] with `1` as a default for `assigned_lines`.
    #[inline]
    pub fn new_with_sink(sink: S) -> (destination: Self)
        ensures
            destination.sink == sink,
            destination.assigned_lines == 1,
    {
        Self { sink, assigned_lines: 1 }
    }

    /// Consumes the [`Destination`], returning the `sink`.
    ///
    /// This could be used to retrieve the data after the splitting operation.
    #[inline]
    pub fn into_sink(self) -> (sink: S)
        ensures
            sink == self.sink,
    {
        self.sink
    }
}

/// The error of `String::from_utf8`, which keeps the rejected bytes.
#[verifier::external_type_specification]
#[verifier::external_body]
pub struct ExFromUtf8Error(FromUtf8Error);

/// Calls `String::from_utf8`. The standard library returns the bytes as a
/// `String` if they are valid UTF-8 and an error otherwise; the contract
/// says so over `valid_utf8` and `decode_utf8`.
#[verifier::external_body]
fn string_from_utf8(bytes: Vec<u8>) -> (decoded: Result<String, FromUtf8Error>)
    ensures
        decoded is Ok <==> valid_utf8(bytes@),
        decoded matches Ok(text) ==> text@ == decode_utf8(bytes@),
{
    String::from_utf8(bytes)
}

impl Destination<Vec<u8>> {
    /// Creates a [`Destination`] with an empty `Vec<u8>` as a raw byte sink and
    /// `1` as a default for `assigned_lines`.
    ///
    /// # Warnings
    ///
    /// As the buffer is completely in memory, an unbounded input could lead to a DoS
    /// vulnerability.
    pub fn buffer() -> (destination: Self)
        ensures
            destination.sink@ == Seq::<u8>::empty(),
            destination.assigned_lines == 1,
    {
        Self::new_with_sink(Vec::new())
    }

    /// Creates a [`Destination`] with an empty `Vec<u8>` as a raw byte sink.
    ///
    /// # Warnings
    ///
    /// As the buffer is completely in memory, an unbounded input could lead to a DoS
    /// vulnerability.
    pub fn buffer_with_lines(assigned_lines: usize) -> (destination: Self)
        ensures
            destination.sink@ == Seq::<u8>::empty(),
            destination.assigned_lines == assigned_lines,
    {
        Self::new(Vec::new(), assigned_lines)
    }

    /// Consumes the [`Destination`], returning the raw byte sink as a [`String`].
    ///
    /// # Errors
    ///
    /// Returns `Err` if and only if the raw bytes are not valid UTF-8.
    pub fn into_utf8_string(self) -> (decoded: Result<String, FromUtf8Error>)
        ensures
            decoded is Ok <==> valid_utf8(self.sink@),
            decoded matches Ok(text) ==> text@ == decode_utf8(self.sink@),
    {
        string_from_utf8(self.into_sink())
    }
}

/// A sink that keeps nothing of what it is given and is told apart from
/// other sinks by its id.
pub struct IdSink {
    id: u64,
}

impl IdSink {
    /// Creates a sink with the given id.
    pub fn new(id: u64) -> (sink: Self)
        ensures
            sink.spec_id() == id,
    {
        Self { id }
    }

    /// The id the sink was created with.
    pub closed spec fn spec_id(&self) -> u64 {
        self.id
    }

    /// The id the sink was created with.
    #[inline]
    #[verifier::when_used_as_spec(spec_id)]
    pub fn id(&self) -> (id: u64)
        ensures
            id == self.spec_id(),
    {
        self.id
    }
}

} // verus!
