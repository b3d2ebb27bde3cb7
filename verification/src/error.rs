//! What can go wrong while bytes are written.
use vstd::prelude::*;

verus! {

/// `std::io::Error`, carried through as it came from a writer.
#[verifier::external_type_specification]
#[verifier::external_body]
pub struct ExIoError(std::io::Error);

/// Why bytes were not written.
#[derive(Debug)]
pub enum WriteError {
    /// The buffer is larger than what the writer may still take.
    InvalidInput,
    /// The writer took nothing of a buffer that is not empty.
    WriteZero,
    /// The writer was interrupted before it took anything; the call may be repeated.
    Interrupted(std::io::Error),
    /// Any other fault of the writer underneath.
    Io(std::io::Error),
}

} // verus!
