use vstd::prelude::*;

verus! {

/// Everything that can go wrong while decoding, encoding or downsampling an
/// image. All kinds are ordinary recoverable outcomes for the caller.
#[derive(Clone, Copy, Debug, PartialEq, Eq, Structural)]
pub enum Error {
    /// An underlying byte source or sink failed. The library itself never
    /// raises this kind: the caller that performs the reading or writing does.
    Io,
    /// The input holds fewer than the 16 header bytes.
    HeaderToShort,
    /// The first eight bytes of the input are not the ASCII magic `farbfeld`.
    FarbfeldPatternNotFound,
    /// The input declares more pixels than it carries complete 8-byte chunks.
    MismatchedLength,
    /// The downsampling factor is zero or does not evenly divide a dimension.
    NonExactMultiple,
}

} // verus!
