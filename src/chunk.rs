//! Chunk codecs: the persisted form of a sorted run.
use crate::source::{all_ok, Source};
use vstd::prelude::*;

verus! {

/// `std::io::Error`, carried through unread.
#[verifier::external_type_specification]
#[verifier::external_body]
pub struct ExIoError(std::io::Error);

/// `tempfile::TempDir`, the directory that holds the runs; removed when
/// dropped.
#[verifier::external_type_specification]
#[verifier::external_body]
pub struct ExTempDir(tempfile::TempDir);

/// Why a run could not be written.
pub enum ExternalChunkError<S> {
    /// An I/O operation failed.
    IO(std::io::Error),
    /// An item could not be encoded.
    SerializationError(S),
}

/// A codec that writes a run of items into a file of the temporary
/// directory and then reads it back, once and in order, as a source whose
/// errors are decoding errors.
///
/// `build` promises that a run reads back as exactly the items written,
/// with no error.  A codec whose files can be damaged after they are written
/// cannot keep that promise, and what is proved on top of it (that a sort
/// gives its input stably sorted) then holds only while reads succeed.
pub trait ExternalChunk<T>: Source<T> {
    type SerializationError;

    /// Writes `items` and rewinds for reading; `buf_size` is the size of the
    /// I/O buffers, where given.
    fn build(dir: &tempfile::TempDir, items: Vec<T>, buf_size: Option<usize>) -> (r: Result<
        Self,
        ExternalChunkError<Self::SerializationError>,
    >)
        ensures
            r is Ok ==> r->Ok_0.rest() == all_ok::<T, Self::Error>(items@),
    ;
}

} // verus!
