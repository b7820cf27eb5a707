//! Networking for Bevy: a length-prefixed, optionally compressed and encrypted
//! frame codec, and the wire format of replication updates.
use vstd::prelude::*;

pub mod codec;
pub mod replication;

verus! {

/// An outside type: the error that reading from an exhausted byte source yields.
#[verifier::external_type_specification]
#[verifier::external_body]
pub struct ExIoError(std::io::Error);

/// Errors of the codec.
#[derive(Debug)]
pub enum Error {
    /// Reading ran out of bytes, or an outside stream failed.
    Io(std::io::Error),
    /// A VarInt went on past the given number of bits.
    VarIntTooWide(u8),
}

} // verus!
