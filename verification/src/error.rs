//! The errors of the index.
use vstd::prelude::*;

verus! {

/// Why an operation of the index failed; `E` is the error of the codec that
/// encodes values.
#[derive(Debug)]
pub enum Error<E> {
    /// The storage engine failed.
    Fjall(fjall::Error),
    /// A value could not be encoded.
    CouldNotEncodeValue(E),
    /// A stored key could not be read back (it was empty).
    CouldNotDecodeKeyTag(std::io::Error),
    /// A stored set of documents could not be read back, or not be written.
    CouldNotEncodeOrDecodeRoaring,
}

} // verus!
