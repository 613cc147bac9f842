use vstd::prelude::*;

verus! {

/// An I/O failure reported by the file system; carried through unchanged.
#[verifier::external_type_specification]
#[verifier::external_body]
pub struct ExIoError(std::io::Error);

/// Why an upload operation failed.
#[derive(Debug)]
pub enum Error {
    /// The file system failed; the session it happened in is given up.
    Io(std::io::Error),
    /// No session is known under the token: unknown, expired or already finished.
    InvalidFileToken,
    /// The chunk index lies beyond the declared size.
    InvalidChunkIndex,
    /// The chunk was written before; rewriting is refused.
    ChunkAlreadyWritten,
    /// Finishing was asked for before every chunk arrived; holds the first missing chunk.
    FileNotFilledUp(usize),
    /// The body held more or fewer bytes than its slot; holds the position reached.
    DataNotFitIn(usize),
}

impl Error {
    /// Whether this is a file-system failure.
    pub fn is_io(&self) -> (r: bool)
        ensures
            r == (self is Io),
    {
        match self {
            Error::Io(_) => true,
            _ => false,
        }
    }
}

impl From<std::io::Error> for Error {
    fn from(error: std::io::Error) -> (r: Error) {
        Error::Io(error)
    }
}

impl vstd::std_specs::convert::FromSpecImpl<std::io::Error> for Error {
    open spec fn obeys_from_spec() -> bool {
        true
    }

    open spec fn from_spec(error: std::io::Error) -> Error {
        Error::Io(error)
    }
}

} // verus!
