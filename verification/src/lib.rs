use vstd::prelude::*;

pub mod bits;
pub mod codec;
pub mod order;
pub mod partition;
pub mod sentence2vec;
pub mod text;
pub mod word2vec;

verus! {

/// The failures that the store's operations report. A missing word is never an
/// error: lookups return `None` instead.
#[derive(Clone, Copy, Debug, PartialEq, Eq, Structural)]
pub enum W2vError {
    /// A partition parameter (folder or file count) was zero.
    InvalidArgument,
    /// A file or directory could not be read, written or created. The library
    /// itself does no I/O; the host program maps its failures to this variant.
    Io,
}

} // verus!
